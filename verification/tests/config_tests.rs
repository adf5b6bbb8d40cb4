//! Tests of the configuration model, the interval grammar and the
//! configuration text format.

use repomon::config::validate;
use repomon::Branch;
use repomon::Error;
use repomon::Remote;
use repomon::Repo;
use repomon::Repomon;

const TEST_TOML: &str = r#"basedir = "/home/jozias/projects"
[[repos.ar2.remotes]]
name = "origin"
url = "jozias@jasonozias.com:repos/ar2.git"

[[repos.ar2.branch]]
name = "master"
interval = "1m"
remotes = ["origin"]
[[repos.repomon.remotes]]
name = "origin"
url = "jozias@jasonozias.com:repos/repomon.git"

[[repos.repomon.remotes]]
name = "gh"
url = "git@github.com:rustyhorde/repomon.git"

[[repos.repomon.branch]]
name = "master"
interval = "1m"
remotes = ["origin", "gh"]

[[repos.repomon.branch]]
name = "feature/testing"
interval = "1m"
remotes = ["origin", "gh"]
"#;

fn remotes() -> Vec<Remote> {
    let mut origin: Remote = Default::default();
    origin.set_name("origin".to_string());
    origin.set_url("jozias@jasonozias.com:repos/repomon.git".to_string());

    let mut github: Remote = Default::default();
    github.set_name("gh".to_string());
    github.set_url("git@github.com:rustyhorde/repomon.git".to_string());

    vec![origin, github]
}

fn setup_repomon() -> Repomon {
    let remotes_to_monitor = vec!["origin", "gh"]
        .iter()
        .map(|x| x.to_string())
        .collect::<Vec<String>>();
    let master = Branch {
        name: "master".to_string(),
        interval: "1m".to_string(),
        remotes: remotes_to_monitor.clone(),
    };

    let ar2_master = Branch {
        name: "master".to_string(),
        interval: "1m".to_string(),
        remotes: vec!["origin"].iter().map(|x| x.to_string()).collect(),
    };

    let feature_testing = Branch {
        name: "feature/testing".to_string(),
        interval: "1m".to_string(),
        remotes: remotes_to_monitor,
    };

    let mut ar2_origin: Remote = Default::default();
    ar2_origin.set_name("origin".to_string());
    ar2_origin.set_url("jozias@jasonozias.com:repos/ar2.git".to_string());

    let repomon_branches = vec![master, feature_testing];
    let ar2_branches = vec![ar2_master];

    let repomon_repo = Repo {
        remotes: remotes(),
        branch: repomon_branches,
    };

    let ar2_repo = Repo {
        remotes: vec![ar2_origin],
        branch: ar2_branches,
    };

    let mut repomon: Repomon = Default::default();
    repomon.set_basedir("/home/jozias/projects".to_string());
    repomon.repos.insert("ar2".to_string(), ar2_repo);
    repomon.repos.insert("repomon".to_string(), repomon_repo);
    repomon
}

fn test_repomon(repomon: &Repomon) {
    let repo_map = repomon.repos();
    assert_eq!(repo_map.len(), 2);
    assert!(repo_map.contains_key("repomon"));
    assert!(repo_map.contains_key("ar2"));

    let repomon = repo_map
        .get("repomon")
        .expect("Unable to lookup repomon repo");
    assert_eq!(repomon.remotes().len(), 2);
    assert_eq!(repomon.branch().len(), 2);

    let ar2 = repo_map.get("ar2").expect("Unable to lookup ar2 repo");
    assert_eq!(ar2.remotes().len(), 1);
    assert_eq!(ar2.branch().len(), 1);
}

#[test]
fn serialize() {
    let repomon = setup_repomon();
    let toml = repomon::write_toml(&repomon);
    assert_eq!(TEST_TOML, toml);
}

#[test]
fn deserialize() {
    let repomon: Repomon = repomon::read_toml(TEST_TOML).expect("Unable to deserialize TOML");
    assert_eq!(repomon.basedir().as_str(), "/home/jozias/projects");
    test_repomon(&repomon);
}

#[test]
fn empty_reader() {
    match repomon::read_toml("") {
        Ok(_) => assert!(false, "0 bytes read should error"),
        Err(_) => assert!(true),
    }
}

#[test]
fn read_toml() {
    match repomon::read_toml(TEST_TOML) {
        Ok(repomon) => test_repomon(&repomon),
        Err(_) => assert!(false, "Unable to parse TOML"),
    }
}

#[test]
fn write_toml() {
    let repomon = setup_repomon();
    let toml = repomon::write_toml(&repomon);
    assert_eq!(TEST_TOML, toml);
}

fn check_ms_result(expected: usize, branch: &Branch) {
    if let Ok(ms) = branch.interval_to_ms() {
        assert_eq!(expected, ms);
    } else {
        assert!(false, "invalid branch interval");
    }
}

#[test]
fn interval_to_ms() {
    let mut branch: Branch = Default::default();
    branch.set_interval("1s".to_string());
    check_ms_result(1000, &branch);
    branch.set_interval("5s".to_string());
    check_ms_result(5000, &branch);
    branch.set_interval("1m".to_string());
    check_ms_result(60_000, &branch);
    branch.set_interval("5m".to_string());
    check_ms_result(300_000, &branch);
    branch.set_interval("1h".to_string());
    check_ms_result(3_600_000, &branch);
    branch.set_interval("5h".to_string());
    check_ms_result(18_000_000, &branch);
    branch.set_interval("1d".to_string());
    check_ms_result(86_400_000, &branch);
    branch.set_interval("5d".to_string());
    check_ms_result(432_000_000, &branch);
}

#[test]
fn interval_rejects_malformed() {
    let mut branch: Branch = Default::default();
    for bad in ["abc", "", "5", "m", "5x", "5m ", " 5m", "5mm", "m5", "5s5"] {
        branch.set_interval(bad.to_string());
        match branch.interval_to_ms() {
            Ok(_) => assert!(false, "interval should be rejected"),
            Err(Error::InvalidIntervalFormat(t)) => assert_eq!(t.as_str(), bad),
            Err(_) => assert!(false, "wrong error kind"),
        }
    }
}

#[test]
fn config_round_trip() {
    let repomon = setup_repomon();
    let text = repomon::write_toml(&repomon);
    let back = repomon::read_toml(text.as_str()).expect("canonical text should parse");
    assert_eq!(repomon, back);
}

#[test]
fn validate_accepts_good_config() {
    let repomon = setup_repomon();
    assert!(validate(&repomon).is_ok());
}

#[test]
fn validate_rejects_dangling_remote() {
    let mut repomon = setup_repomon();
    let bad_branch = Branch {
        name: "master".to_string(),
        interval: "1m".to_string(),
        remotes: vec!["nowhere".to_string()],
    };
    let repo = Repo {
        remotes: vec![],
        branch: vec![bad_branch],
    };
    repomon.repos.insert("bad".to_string(), repo);
    match validate(&repomon) {
        Err(Error::ConfigError(_)) => {}
        _ => assert!(false, "dangling remote reference should be rejected"),
    }
}

#[test]
fn validate_rejects_duplicate_remote_names() {
    let mut repomon = setup_repomon();
    let r1 = Remote {
        name: "origin".to_string(),
        url: "a".to_string(),
    };
    let r2 = Remote {
        name: "origin".to_string(),
        url: "b".to_string(),
    };
    let repo = Repo {
        remotes: vec![r1, r2],
        branch: vec![],
    };
    repomon.repos.insert("dup".to_string(), repo);
    match validate(&repomon) {
        Err(Error::ConfigError(_)) => {}
        _ => assert!(false, "duplicate remote names should be rejected"),
    }
}

#[test]
fn validate_rejects_bad_interval() {
    let mut repomon = setup_repomon();
    let bad_branch = Branch {
        name: "master".to_string(),
        interval: "soon".to_string(),
        remotes: vec!["origin".to_string()],
    };
    let repo = Repo {
        remotes: vec![Remote {
            name: "origin".to_string(),
            url: "u".to_string(),
        }],
        branch: vec![bad_branch],
    };
    repomon.repos.insert("bad".to_string(), repo);
    match validate(&repomon) {
        Err(Error::ConfigError(_)) => {}
        _ => assert!(false, "invalid interval should be rejected"),
    }
}

#[test]
fn render_config_types() {
    let remote = Remote {
        name: "origin".to_string(),
        url: "git@example.com:r.git".to_string(),
    };
    assert_eq!(remote.render(), "origin: git@example.com:r.git");

    let branch = Branch {
        name: "master".to_string(),
        interval: "1m".to_string(),
        remotes: vec!["origin".to_string()],
    };
    assert_eq!(branch.render(), "master");

    let repo = Repo {
        remotes: vec![remote],
        branch: vec![branch],
    };
    assert_eq!(
        repo.render(),
        "Repo {    origin: git@example.com:r.git    master}"
    );

    let mut repomon: Repomon = Default::default();
    repomon.set_basedir("/tmp/projects".to_string());
    repomon.repos.insert("one".to_string(), repo);
    assert_eq!(
        repomon.render(),
        "Repomon {\n    one -- Repo {    origin: git@example.com:r.git    master}\n}"
    );
}

#[test]
fn read_toml_rejects_malformed_documents() {
    for bad in [
        "no basedir here\n",
        "basedir = \"/a\"\n[[repos.r.remotes]]\n",
        "basedir = \"/a\"\n[[repos.r.remotes]]\nname = \"o\"\n",
        "basedir = \"/a\"\ngarbage\n",
        "basedir = \"/a\"\n[[repos.r.branch]]\nname = \"m\"\ninterval = \"1m\"\nremotes = [oops]\n",
    ] {
        match repomon::read_toml(bad) {
            Err(Error::ConfigError(_)) => {}
            _ => assert!(false, "malformed document should be rejected"),
        }
    }
}
