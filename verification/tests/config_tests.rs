//! Tests of manifest construction and discovery order.

use memora::cache::Artifact;
use memora::config::{ConfigError, Manifest};

fn artifact(inputs: &[&str], outputs: &[&str]) -> Artifact {
    Artifact {
        inputs: inputs.iter().map(|s| s.to_string()).collect(),
        outputs: outputs.iter().map(|s| s.to_string()).collect(),
    }
}

/// The manifest file becomes an input of every artifact.
#[test]
fn manifest_path_is_an_input_of_every_artifact() {
    let arts = vec![
        (String::from("a"), artifact(&["src/a"], &["bin/a"])),
        (String::from("b"), artifact(&[], &["bin/b"])),
    ];
    let m = Manifest::new(String::from(".cache"), arts, None, "/repo/Memora.yml").unwrap();
    assert_eq!(m.cache_root_dir, String::from(".cache"));
    assert_eq!(m.artifacts.len(), 2);
    assert_eq!(
        m.artifacts[0].1.inputs,
        vec![String::from("src/a"), String::from("/repo/Memora.yml")]
    );
    assert_eq!(m.artifacts[1].1.inputs, vec![String::from("/repo/Memora.yml")]);
    assert_eq!(m.artifacts[0].1.outputs, vec![String::from("bin/a")]);
}

#[test]
fn duplicate_artifact_names_are_rejected() {
    let arts = vec![
        (String::from("a"), artifact(&["x"], &["y"])),
        (String::from("b"), artifact(&["x"], &["y"])),
        (String::from("a"), artifact(&["z"], &["w"])),
    ];
    let r = Manifest::new(String::from(".cache"), arts, None, "/repo/Memora.yml");
    assert_eq!(r.err(), Some(ConfigError::DuplicateArtifactName { name: String::from("a") }));
}

#[test]
fn manifest_discovery_order() {
    let paths = Manifest::search_paths("/repo");
    assert_eq!(
        paths,
        vec![
            String::from("/repo/Memora.yml"),
            String::from("/repo/.ci/Memora.yml"),
            String::from("/repo/.gitlab-ci.d/Memora.yml"),
        ]
    );
}

#[test]
fn disable_env_var_is_kept() {
    let m = Manifest::new(
        String::from("/tmp/cache"),
        Vec::new(),
        Some(String::from("MEMORA_DISABLE")),
        "/repo/Memora.yml",
    )
    .unwrap();
    assert_eq!(m.disable_env_var, Some(String::from("MEMORA_DISABLE")));
}
