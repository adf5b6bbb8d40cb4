//! Tests of status messages and their wire format.

use repomon::codec::decode_message;
use repomon::codec::encode_message;
use repomon::message::emit;
use repomon::message::status_for;
use repomon::message::BranchMessages;
use repomon::message::RemoteMessages;
use repomon::Branch;
use repomon::Error;
use repomon::Message;
use repomon::Remote;
use uuid::Uuid;

const MSG_BYTES: [u8; 501] = [
    36, 0, 0, 0, 0, 0, 0, 0, 98, 52, 50, 56, 98, 53, 100, 57, 45, 100, 102, 49, 57, 45, 53, 98,
    98, 57, 45, 97, 49, 100, 99, 45, 49, 49, 53, 101, 48, 55, 49, 98, 56, 51, 54, 99, 7, 0, 0, 0,
    0, 0, 0, 0, 114, 101, 112, 111, 109, 111, 110, 2, 0, 0, 0, 0, 0, 0, 0, 12, 0, 0, 0, 0, 0, 0,
    0, 102, 101, 97, 116, 117, 114, 101, 47, 116, 101, 115, 116, 2, 0, 0, 0, 0, 0, 0, 0, 49, 109,
    2, 0, 0, 0, 0, 0, 0, 0, 6, 0, 0, 0, 0, 0, 0, 0, 111, 114, 105, 103, 105, 110, 2, 0, 0, 0, 0,
    0, 0, 0, 103, 104, 2, 0, 0, 0, 0, 0, 0, 0, 2, 0, 0, 0, 0, 0, 0, 0, 103, 104, 0, 0, 0, 0, 0,
    0, 0, 0, 48, 0, 0, 0, 0, 0, 0, 0, 89, 111, 117, 114, 32, 98, 114, 97, 110, 99, 104, 32, 105,
    115, 32, 117, 112, 32, 116, 111, 32, 100, 97, 116, 101, 32, 119, 105, 116, 104, 32, 39, 103,
    104, 47, 102, 101, 97, 116, 117, 114, 101, 47, 116, 101, 115, 116, 39, 6, 0, 0, 0, 0, 0, 0,
    0, 111, 114, 105, 103, 105, 110, 0, 0, 0, 0, 0, 0, 0, 0, 52, 0, 0, 0, 0, 0, 0, 0, 89, 111,
    117, 114, 32, 98, 114, 97, 110, 99, 104, 32, 105, 115, 32, 117, 112, 32, 116, 111, 32, 100,
    97, 116, 101, 32, 119, 105, 116, 104, 32, 39, 111, 114, 105, 103, 105, 110, 47, 102, 101, 97,
    116, 117, 114, 101, 47, 116, 101, 115, 116, 39, 6, 0, 0, 0, 0, 0, 0, 0, 109, 97, 115, 116,
    101, 114, 2, 0, 0, 0, 0, 0, 0, 0, 49, 109, 2, 0, 0, 0, 0, 0, 0, 0, 6, 0, 0, 0, 0, 0, 0, 0,
    111, 114, 105, 103, 105, 110, 2, 0, 0, 0, 0, 0, 0, 0, 103, 104, 2, 0, 0, 0, 0, 0, 0, 0, 2, 0,
    0, 0, 0, 0, 0, 0, 103, 104, 0, 0, 0, 0, 0, 0, 0, 0, 42, 0, 0, 0, 0, 0, 0, 0, 89, 111, 117,
    114, 32, 98, 114, 97, 110, 99, 104, 32, 105, 115, 32, 117, 112, 32, 116, 111, 32, 100, 97,
    116, 101, 32, 119, 105, 116, 104, 32, 39, 103, 104, 47, 109, 97, 115, 116, 101, 114, 39, 6,
    0, 0, 0, 0, 0, 0, 0, 111, 114, 105, 103, 105, 110, 0, 0, 0, 0, 0, 0, 0, 0, 46, 0, 0, 0, 0, 0,
    0, 0, 89, 111, 117, 114, 32, 98, 114, 97, 110, 99, 104, 32, 105, 115, 32, 117, 112, 32, 116,
    111, 32, 100, 97, 116, 101, 32, 119, 105, 116, 104, 32, 39, 111, 114, 105, 103, 105, 110, 47,
    109, 97, 115, 116, 101, 114, 39,
];

#[test]
fn serialize_message() {
    let mut message: Message = Default::default();

    let mut origin: Remote = Default::default();
    origin.set_name("origin".to_string());

    let mut gh: Remote = Default::default();
    gh.set_name("gh".to_string());

    let mut master_remote_messages = RemoteMessages::new();
    master_remote_messages.insert(
        origin.clone(),
        "Your branch is up to date with 'origin/master'".to_string(),
    );
    master_remote_messages.insert(
        gh.clone(),
        "Your branch is up to date with 'gh/master'".to_string(),
    );

    let mut feature_remote_messages = RemoteMessages::new();
    feature_remote_messages.insert(
        origin,
        "Your branch is up to date with 'origin/feature/test'".to_string(),
    );
    feature_remote_messages.insert(
        gh,
        "Your branch is up to date with 'gh/feature/test'".to_string(),
    );

    let mut master_branch: Branch = Default::default();
    master_branch.set_name("master".to_string());
    master_branch.set_interval("1m".to_string());
    master_branch.set_remotes(vec!["origin", "gh"].iter().map(|x| x.to_string()).collect());

    let mut feature_branch: Branch = Default::default();
    feature_branch.set_name("feature/test".to_string());
    feature_branch.set_interval("1m".to_string());
    feature_branch.set_remotes(vec!["origin", "gh"].iter().map(|x| x.to_string()).collect());

    let mut messages = BranchMessages::new();
    messages.insert(master_branch, master_remote_messages);
    messages.insert(feature_branch, feature_remote_messages);

    message.set_uuid(Uuid::new_v5(&Uuid::NAMESPACE_OID, b"test").to_string());
    message.set_repo("repomon".to_string());
    message.set_messages(messages);

    let msg_bytes = encode_message(&message);
    let mut expected: Vec<u8> = Vec::new();
    expected.extend(MSG_BYTES.iter());
    assert_eq!(msg_bytes, expected);
}

#[test]
fn deserialize_bytes() {
    let message: Message = decode_message(&MSG_BYTES.to_vec()).expect("unable to deserialize message");
    assert_eq!(
        message.uuid().to_string(),
        "b428b5d9-df19-5bb9-a1dc-115e071b836c"
    );
    assert_eq!(message.repo().as_str(), "repomon");
    assert_eq!(message.messages().len(), 2);

    for (idx, (branch, remotes)) in message.messages().entries.iter().enumerate() {
        match idx {
            0 => {
                assert_eq!(branch.name().as_str(), "feature/test");
                assert_eq!(branch.interval().as_str(), "1m");
                assert_eq!(
                    branch.remotes(),
                    &vec!["origin".to_string(), "gh".to_string()]
                );

                for (jdx, (remote, message)) in remotes.entries.iter().enumerate() {
                    match jdx {
                        0 => {
                            assert_eq!(remote.name().as_str(), "gh");
                            assert_eq!(
                                message,
                                "Your branch is up to date with 'gh/feature/test'"
                            );
                        }
                        1 => {
                            assert_eq!(remote.name().as_str(), "origin");
                            assert_eq!(
                                message,
                                "Your branch is up to date with 'origin/feature/test'"
                            );
                        }
                        _ => assert!(false),
                    }
                }
            }
            1 => {
                assert_eq!(branch.name().as_str(), "master");
                assert_eq!(branch.interval().as_str(), "1m");
                assert_eq!(
                    branch.remotes(),
                    &vec!["origin".to_string(), "gh".to_string()]
                );

                for (jdx, (remote, message)) in remotes.entries.iter().enumerate() {
                    match jdx {
                        0 => {
                            assert_eq!(remote.name().as_str(), "gh");
                            assert_eq!(message, "Your branch is up to date with 'gh/master'");
                        }
                        1 => {
                            assert_eq!(remote.name().as_str(), "origin");
                            assert_eq!(
                                message,
                                "Your branch is up to date with 'origin/master'"
                            );
                        }
                        _ => assert!(false),
                    }
                }
            }
            _ => assert!(false),
        }
    }
}

#[test]
fn message_wire_round_trip() {
    let mut message: Message = Default::default();
    let mut per_remote = RemoteMessages::new();
    per_remote.insert(
        Remote {
            name: "origin".to_string(),
            url: "git@example.com:r.git".to_string(),
        },
        "Your branch is up to date with 'origin/main'".to_string(),
    );
    let branch = Branch {
        name: "main".to_string(),
        interval: "5s".to_string(),
        remotes: vec!["origin".to_string()],
    };
    let mut messages = BranchMessages::new();
    messages.insert(branch, per_remote);
    message.set_uuid("00000000-0000-0000-0000-000000000000".to_string());
    message.set_repo("demo".to_string());
    message.set_messages(messages);

    let bytes = encode_message(&message);
    let back = decode_message(&bytes).expect("encoded bytes should decode");
    assert_eq!(message, back);
}

#[test]
fn decode_rejects_garbage() {
    assert!(decode_message(&vec![]).is_none());
    assert!(decode_message(&vec![1, 2, 3]).is_none());
    let mut bytes = encode_message(&Message::default());
    bytes.push(0);
    assert!(decode_message(&bytes).is_none(), "trailing bytes are rejected");
}

#[test]
fn render_message_lines() {
    let mut per_remote = RemoteMessages::new();
    per_remote.insert(
        Remote {
            name: "origin".to_string(),
            url: String::new(),
        },
        "Your branch is up to date with 'origin/master'".to_string(),
    );
    per_remote.insert(
        Remote {
            name: "gh".to_string(),
            url: String::new(),
        },
        "Your branch is up to date with 'gh/master'".to_string(),
    );
    let branch = Branch {
        name: "master".to_string(),
        interval: "1m".to_string(),
        remotes: vec!["origin".to_string(), "gh".to_string()],
    };
    let mut messages = BranchMessages::new();
    messages.insert(branch, per_remote);
    let mut message: Message = Default::default();
    message.set_uuid("u-1".to_string());
    message.set_repo("repomon".to_string());
    message.set_messages(messages);

    assert_eq!(
        message.render(),
        "u-1: repomon/master (gh) - Your branch is up to date with 'gh/master'\n\
         u-1: repomon/master (origin) - Your branch is up to date with 'origin/master'"
    );
}

#[test]
fn emit_builds_one_message_per_cycle() {
    let branch = Branch {
        name: "master".to_string(),
        interval: "1m".to_string(),
        remotes: vec!["origin".to_string()],
    };
    let mut per_remote = RemoteMessages::new();
    per_remote.insert(
        Remote {
            name: "origin".to_string(),
            url: String::new(),
        },
        status_for("master", "origin", &Ok((0, 3))),
    );
    let message = emit("repomon", branch, per_remote);
    assert_eq!(message.repo().as_str(), "repomon");
    assert_eq!(message.uuid().len(), 36);
    let id = message.uuid();
    for (i, c) in id.chars().enumerate() {
        if i == 8 || i == 13 || i == 18 || i == 23 {
            assert_eq!(c, '-');
        } else {
            assert!(c.is_ascii_hexdigit());
        }
    }
    assert_eq!(message.messages().len(), 1);
    let (branch, remotes) = &message.messages().entries[0];
    assert_eq!(branch.name().as_str(), "master");
    assert_eq!(
        remotes.entries[0].1,
        "Your branch is behind 'origin/master' by 3 commit(s)"
    );
}

#[test]
fn status_for_renders_errors() {
    let text = status_for("master", "origin", &Err(Error::RefNotFound));
    assert_eq!(text, "reference not found");
    let text = status_for("master", "origin", &Err(Error::FetchFailed("timed out".to_string())));
    assert_eq!(text, "fetch failed: timed out");
    let text = status_for("master", "origin", &Err(Error::AuthenticationFailed));
    assert_eq!(text, "authentication failed");
    let text = status_for("master", "origin", &Err(Error::AmbiguousRef));
    assert_eq!(text, "ambiguous reference");
    let text = status_for("master", "origin", &Err(Error::UnresolvableRef));
    assert_eq!(text, "unresolvable reference");
    let text = status_for(
        "master",
        "origin",
        &Err(Error::RepositoryAccessError("odb corrupt".to_string())),
    );
    assert_eq!(text, "repository access error: odb corrupt");
    let text = status_for(
        "master",
        "origin",
        &Err(Error::InvalidIntervalFormat("soon".to_string())),
    );
    assert_eq!(text, "invalid interval: soon");
    let text = status_for(
        "master",
        "origin",
        &Err(Error::ConfigError("dangling remote".to_string())),
    );
    assert_eq!(text, "configuration error: dangling remote");
}
