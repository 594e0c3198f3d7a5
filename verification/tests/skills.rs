use noya::skills::{
    digest, load_skill, parse_frontmatter, split_frontmatter, valid_name, SkillFile, SkillRegistry,
    SkillSource,
};

fn file(text: &str) -> SkillFile {
    SkillFile::Found {
        path: "/skills/demo/SKILL.md".to_string(),
        is_file: true,
        bytes: Ok(text.len() as u64),
        text: Ok(text.to_string()),
    }
}

fn refused(text: &str) -> String {
    load_skill("/skills", file(text), "demo", SkillSource::Project)
        .unwrap_err()
        .message
}

#[test]
fn discovers_valid_skill_and_parses_metadata() {
    let skill = load_skill(
        "/skills",
        file("---\nname: demo\ndescription: A demo skill\ndisable-model-invocation: true\n---\n\nDo the thing.\n"),
        "demo",
        SkillSource::Project,
    )
    .unwrap();
    assert_eq!(skill.info.name, "demo");
    assert!(skill.info.disable_model_invocation);
    assert_eq!(skill.body, "Do the thing.");
}

#[test]
fn rejects_name_mismatch() {
    assert!(load_skill(
        "/skills",
        file("---\nname: other\ndescription: bad\n---\nbody"),
        "demo",
        SkillSource::Project
    )
    .is_err());
}

#[test]
fn faults_are_told() {
    assert_eq!(
        refused("---\ndescription: d\n---\nb"),
        "frontmatter is missing name"
    );
    assert_eq!(
        refused("---\nname: demo\n---\nb"),
        "frontmatter is missing description"
    );
    assert_eq!(
        refused("---\nname: demo\ndescription: d\ndisable-model-invocation: maybe\n---\nb"),
        "disable-model-invocation must be true or false"
    );
    let outside = SkillFile::Found {
        path: "/elsewhere/SKILL.md".to_string(),
        is_file: true,
        bytes: Ok(1),
        text: Ok(String::new()),
    };
    assert_eq!(
        load_skill("/skills", outside, "demo", SkillSource::User)
            .unwrap_err()
            .message,
        "SKILL.md resolves outside its skills root"
    );
    let large = SkillFile::Found {
        path: "/skills/demo/SKILL.md".to_string(),
        is_file: true,
        bytes: Ok(65537),
        text: Ok(String::new()),
    };
    assert_eq!(
        load_skill("/skills", large, "demo", SkillSource::User)
            .unwrap_err()
            .message,
        "SKILL.md exceeds 65536 bytes"
    );
    assert_eq!(
        load_skill(
            "/skills",
            SkillFile::Unreadable("gone".to_string()),
            "demo",
            SkillSource::User
        )
        .unwrap_err()
        .message,
        "gone"
    );
    assert_eq!(
        load_skill("/skills", file(""), "De mo", SkillSource::User)
            .unwrap_err()
            .message,
        "invalid Skill ID 'De mo'"
    );
}

#[test]
fn names_are_plain() {
    assert!(valid_name("a-1"));
    assert!(!valid_name(""));
    assert!(!valid_name("A"));
    assert!(!valid_name("a/b"));
    assert!(!valid_name(&"a".repeat(65)));
}

#[test]
fn a_digest_follows_the_text() {
    assert_eq!(digest(""), "fnv1a-cbf29ce484222325");
    assert_eq!(digest("a"), "fnv1a-af63dc4c8601ec8c");
    assert_ne!(digest("a"), digest("b"));
}

#[test]
fn a_header_is_split_off() {
    let (header, body) = split_frontmatter("---\nk: v\n---\nbody\n").unwrap();
    assert_eq!(header.trim(), "k: v");
    assert_eq!(body.trim(), "body");
    assert!(split_frontmatter("no header").is_err());
    assert!(split_frontmatter("---\nk: v\n").is_err());
    let fields = parse_frontmatter("k: v\nl: \"w\"\n").unwrap();
    assert_eq!(fields.get("k").as_deref(), Some("v"));
    assert_eq!(fields.get("m"), None);
}

#[test]
fn the_first_skill_of_a_name_stays() {
    let mut registry = SkillRegistry::default();
    let text = "---\nname: demo\ndescription: first\n---\nbody";
    registry.consider(
        "/skills",
        "/skills/demo",
        "demo",
        file(text),
        SkillSource::Project,
    );
    registry.consider(
        "/skills",
        "/skills/demo",
        "demo",
        file("---\nname: demo\ndescription: second\n---\nbody"),
        SkillSource::User,
    );
    registry.consider(
        "/skills",
        "/skills/bad",
        "bad",
        file("nothing"),
        SkillSource::User,
    );
    assert_eq!(registry.list().len(), 1);
    assert_eq!(registry.get("demo").unwrap().description, "first");
    assert_eq!(registry.body("demo"), Some("body"));
    assert_eq!(registry.get("bad").map(|s| s.name.clone()), None);
    assert!(registry.warnings().iter().any(|w| w.contains("bad")));
    assert_eq!(SkillSource::Project.to_text(), "project");
}

#[test]
fn skills_are_listed_by_name() {
    let mut registry = SkillRegistry::default();
    for name in ["plan", "demo", "zip", "demo-two"] {
        registry.consider(
            "/skills",
            &format!("/skills/{name}"),
            name,
            file(&format!("---\nname: {name}\ndescription: A skill\n---\nbody of {name}")),
            SkillSource::Project,
        );
    }
    let names: Vec<String> = registry.list().into_iter().map(|info| info.name).collect();
    assert_eq!(names, ["demo", "demo-two", "plan", "zip"]);
    for name in &names {
        assert_eq!(&registry.get(name).unwrap().name, name);
        assert_eq!(registry.body(name), Some(format!("body of {name}").as_str()));
    }
    assert!(registry.get("dem").is_none());
    assert!(registry.body("zip2").is_none());
}
