use noya::model::{
    AuthenticationMode, CredentialEntry, CredentialStore, EnvironmentKeys, Model,
    ModelCatalogStore, ModelCredential, ModelOverrides, ProviderProtocol, RuntimeModelConfig,
};

fn store() -> CredentialStore {
    CredentialStore::at("/config/credentials.json".to_string())
}

fn resolve(overrides: ModelOverrides, store: &CredentialStore) -> RuntimeModelConfig {
    RuntimeModelConfig::resolve(overrides, store, EnvironmentKeys::default())
}

#[test]
fn deepseek_uses_current_openai_compatible_defaults() {
    let model: Model = "deepseek".parse().unwrap();

    assert_eq!(model.base_url(), "https://api.deepseek.com");
    assert_eq!(model.default_model_id(), "deepseek-v4-flash");
    assert_eq!(model.api_key_label(), "DeepSeek API key");
}

#[test]
fn qwen_and_kimi_use_openai_compatible_defaults() {
    let qwen: Model = "qwen".parse().unwrap();
    assert_eq!(
        qwen.base_url(),
        "https://dashscope.aliyuncs.com/compatible-mode/v1"
    );
    assert_eq!(qwen.default_model_id(), "qwen3-coder-plus");
    assert_eq!(qwen.api_key_label(), "Qwen API key");
    assert_eq!(qwen.api_key_env(), "DASHSCOPE_API_KEY");

    let kimi: Model = "kimi".parse().unwrap();
    assert_eq!(kimi.base_url(), "https://api.moonshot.cn/v1");
    assert_eq!(kimi.default_model_id(), "kimi-k3");
    assert_eq!(kimi.api_key_label(), "Kimi API key");
    assert_eq!(kimi.api_key_env(), "MOONSHOT_API_KEY");
    assert!(!kimi.supports_custom_temperature());
    assert!(qwen.supports_custom_temperature());

    assert_eq!(Model::supported(), &["openai", "deepseek", "qwen", "kimi"]);
}

#[test]
fn models_are_found_by_any_of_their_names() {
    assert_eq!(Model::parse(" Deep-Seek ").unwrap(), Model::DeepSeek);
    assert_eq!(Model::parse("DASHSCOPE").unwrap(), Model::Qwen);
    assert_eq!(Model::parse("moonshot").unwrap(), Model::Kimi);
    for model in Model::all() {
        assert_eq!(Model::parse(model.id()).unwrap(), model);
        assert_eq!(model.default_protocol(), ProviderProtocol::OpenAiCompatible);
        assert_eq!(model.default_authentication(), AuthenticationMode::Bearer);
    }
    assert_eq!(
        "Nope".parse::<Model>().unwrap_err(),
        "unsupported model 'nope'; supported models: openai, deepseek, qwen, kimi"
    );
    assert_eq!(Model::OpenAi.context_window(), Some(128_000));
    assert_eq!(Model::Qwen.context_window(), Some(1_000_000));
    assert_eq!(Model::Kimi.context_window(), Some(256_000));
    assert_eq!(Model::OpenAi.api_key_env(), "OPENAI_API_KEY");
    assert_eq!(Model::DeepSeek.api_key_env(), "DEEPSEEK_API_KEY");
    assert_eq!(Model::OpenAi.api_key_label(), "OpenAI API key");
}

#[test]
fn login_and_logout_round_trip_without_exposing_storage_details() {
    let mut store = store();

    store.login(Model::DeepSeek, "secret-key", None).unwrap();
    assert_eq!(store.active_model(), Some(Model::DeepSeek));
    assert_eq!(
        store.api_key(Model::DeepSeek).as_deref(),
        Some("secret-key")
    );

    store
        .login(
            Model::DeepSeek,
            "updated-key",
            Some("https://gateway.example/v1"),
        )
        .unwrap();
    assert_eq!(
        store.base_url(Model::DeepSeek).as_deref(),
        Some("https://gateway.example/v1")
    );

    assert!(store.logout(Model::DeepSeek));
    assert_eq!(store.api_key(Model::DeepSeek), None);
    assert_eq!(store.active_model(), None);
}

#[test]
fn a_login_needs_a_key_and_keeps_the_rest() {
    let mut store = store();
    assert_eq!(
        store.login(Model::Kimi, "  ", None).unwrap_err().message,
        "API key cannot be empty"
    );
    assert_eq!(store.active_model(), None);
    store
        .login_with_config(
            Model::Kimi,
            " k ",
            Some(" https://u "),
            ProviderProtocol::AnthropicMessages,
            AuthenticationMode::XApiKey,
        )
        .unwrap();
    assert!(store.set_model_id(Model::Kimi, "mine"));
    assert!(!store.set_model_id(Model::Qwen, "mine"));
    store.login(Model::Kimi, "k2", Some("  ")).unwrap();
    let config = resolve(ModelOverrides::default(), &store);
    assert_eq!(config.api_key, "k2");
    assert_eq!(config.base_url, "https://u");
    assert_eq!(config.model_id, "mine");
    assert_eq!(config.protocol, ProviderProtocol::AnthropicMessages);
    assert_eq!(config.authentication, AuthenticationMode::XApiKey);
    assert!(!store.logout(Model::Qwen));
    assert_eq!(store.active_model(), Some(Model::Kimi));
    assert_eq!(store.entries().len(), 1);
    assert_eq!(store.path(), "/config/credentials.json");
    let statuses = store.model_statuses();
    assert_eq!(statuses.len(), 4);
    assert!(statuses[3].logged_in && statuses[3].active);
    assert!(!statuses[0].logged_in && !statuses[0].active);
}

#[test]
fn runtime_config_uses_active_login_and_allows_explicit_overrides() {
    let mut store = store();
    store.login(Model::DeepSeek, "stored-key", None).unwrap();

    let configured = resolve(ModelOverrides::default(), &store);
    assert_eq!(configured.model, Model::DeepSeek);
    assert_eq!(configured.api_key, "stored-key");
    assert_eq!(configured.base_url, "https://api.deepseek.com");
    assert_eq!(configured.model_id, "deepseek-v4-flash");

    let overridden = resolve(
        ModelOverrides {
            model: Some(Model::DeepSeek),
            api_key: Some("override-key".to_string()),
            base_url: Some("https://gateway.example/v1".to_string()),
            model_id: Some("custom-model".to_string()),
        },
        &store,
    );
    assert_eq!(overridden.api_key, "override-key");
    assert_eq!(overridden.base_url, "https://gateway.example/v1");
    assert_eq!(overridden.model_id, "custom-model");
}

#[test]
fn runtime_config_allows_startup_without_a_saved_credential() {
    let configured = resolve(ModelOverrides::default(), &store());

    assert_eq!(configured.model, Model::OpenAi);
    assert!(configured.api_key.is_empty());
}

#[test]
fn the_environment_comes_before_the_store() {
    let mut store = store();
    store.login(Model::Qwen, "stored", None).unwrap();
    let environment = || EnvironmentKeys {
        openai: None,
        deepseek: None,
        qwen: Some("env".to_string()),
        kimi: None,
    };
    let config =
        RuntimeModelConfig::resolve(ModelOverrides::default(), &store, environment());
    assert_eq!(config.api_key, "env");
    let said = ModelOverrides {
        api_key: Some("said".to_string()),
        ..ModelOverrides::default()
    };
    assert_eq!(
        RuntimeModelConfig::resolve(said, &store, environment()).api_key,
        "said"
    );
    let blank = ModelOverrides {
        api_key: Some(" ".to_string()),
        ..ModelOverrides::default()
    };
    assert_eq!(
        RuntimeModelConfig::resolve(blank, &store, environment()).api_key,
        "env"
    );
}

#[test]
fn runtime_config_uses_provider_specific_endpoint_and_model_from_credentials() {
    let mut store = store();
    store.fill(
        Some(Model::DeepSeek),
        vec![CredentialEntry {
            name: "deepseek".to_string(),
            credential: ModelCredential {
                api_key: "stored-key".to_string(),
                base_url: Some("https://gateway.example/v1".to_string()),
                model_id: Some("deepseek-custom".to_string()),
                protocol: None,
                authentication: None,
            },
        }],
    );

    let configured = resolve(ModelOverrides::default(), &store);
    assert_eq!(configured.api_key, "stored-key");
    assert_eq!(configured.base_url, "https://gateway.example/v1");
    assert_eq!(configured.model_id, "deepseek-custom");
    assert_eq!(configured.protocol, ProviderProtocol::OpenAiCompatible);
}

#[test]
fn discovered_credentials_live_under_the_user_home_directory() {
    let home = dirs::home_dir().unwrap().to_str().unwrap().to_string();
    let store = CredentialStore::discover(None, Some(home)).unwrap();
    let expected = dirs::home_dir().unwrap().join("noya/credentials.json");

    assert_eq!(store.path(), expected.to_str().unwrap());
    let configured = CredentialStore::discover(Some("/c/".to_string()), None).unwrap();
    assert_eq!(configured.path(), "/c/credentials.json");
    assert_eq!(
        CredentialStore::discover(None, None).unwrap_err().message,
        "cannot determine the user home directory"
    );
}

#[test]
fn catalogs_are_kept_by_service_and_address() {
    let mut store = ModelCatalogStore::at("/models.json".to_string());
    assert_eq!(
        ModelCatalogStore::key(Model::OpenAi, " https://gateway.example/v1// "),
        "openai@https://gateway.example/v1"
    );
    store.save(
        Model::OpenAi,
        "https://gateway.example/v1",
        vec!["a".to_string()],
        1,
    );
    store.save(Model::Qwen, "https://q", vec!["q".to_string()], 2);
    store.save(
        Model::OpenAi,
        "https://gateway.example/v1/",
        vec!["b".to_string(), "c".to_string()],
        3,
    );
    assert_eq!(store.catalogs.len(), 2);
    assert_eq!(
        store.get(Model::OpenAi, "https://gateway.example/v1"),
        Some(vec!["b".to_string(), "c".to_string()])
    );
    assert_eq!(store.get(Model::Kimi, "https://q"), None);
    assert_eq!(store.catalogs[1].fetched_at, 3);
}

#[test]
fn settings_are_found_by_their_names() {
    assert_eq!(
        ProviderProtocol::parse(" OpenAI-compatible "),
        Some(ProviderProtocol::OpenAiCompatible)
    );
    assert_eq!(ProviderProtocol::parse("x"), None);
    assert_eq!(
        AuthenticationMode::parse("Bearer"),
        Some(AuthenticationMode::Bearer)
    );
    assert_eq!(AuthenticationMode::parse(""), None);
    assert_eq!(AuthenticationMode::XApiKey.name(), "x-api-key");
    assert_eq!(
        ProviderProtocol::AnthropicMessages.name(),
        "anthropic-messages"
    );
}
