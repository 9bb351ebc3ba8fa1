use base64::Engine;
use jj_ryu::name_map::NameMap;
use jj_ryu::submit::{
    build_stack_comment_data, encode_manifest, find_stack_comment, format_stack_comment,
    frame_item, frame_manifest, stack_comment_action,
    stack_comment_body, write_manifest, CommentAction, StackCommentData, StackItem,
    SubmissionPlan, COMMENT_DATA_POSTFIX, COMMENT_DATA_PREFIX, COMMENT_DATA_PREFIX_OLD,
    STACK_COMMENT_THIS_PR,
};
use jj_ryu::types::{Bookmark, NarrowedBookmarkSegment, PrComment, PullRequest};

fn make_bookmark(name: &str) -> Bookmark {
    Bookmark {
        name: name.to_string(),
        commit_id: format!("{name}_commit"),
        change_id: format!("{name}_change"),
        has_remote: false,
        is_synced: false,
    }
}

fn make_pr(number: u64, bookmark: &str) -> PullRequest {
    PullRequest {
        number,
        html_url: format!("https://github.com/test/test/pull/{number}"),
        base_ref: "main".to_string(),
        head_ref: bookmark.to_string(),
        title: format!("PR for {bookmark}"),
        node_id: Some(format!("PR_node_{number}")),
        is_draft: false,
    }
}

fn make_stack_item(name: &str, number: u64) -> StackItem {
    StackItem {
        bookmark_name: name.to_string(),
        pr_url: format!("https://github.com/test/test/pull/{number}"),
        pr_number: number,
        pr_title: format!("feat: {name}"),
    }
}

fn make_plan(names: &[&str]) -> SubmissionPlan {
    SubmissionPlan {
        segments: names
            .iter()
            .map(|name| NarrowedBookmarkSegment { bookmark: make_bookmark(name), changes: vec![] })
            .collect(),
        constraints: vec![],
        execution_steps: vec![],
        existing_prs: NameMap::new(),
        remote: "origin".to_string(),
        default_branch: "main".to_string(),
    }
}

fn two_item_data() -> StackCommentData {
    StackCommentData {
        version: 1,
        stack: vec![
            StackItem {
                bookmark_name: "feat-a".to_string(),
                pr_url: "https://example.com/1".to_string(),
                pr_number: 1,
                pr_title: "feat: add auth".to_string(),
            },
            StackItem {
                bookmark_name: "feat-b".to_string(),
                pr_url: "https://example.com/2".to_string(),
                pr_number: 2,
                pr_title: "feat: add sessions".to_string(),
            },
        ],
        base_branch: "main".to_string(),
    }
}

/// The manifest that a comment carries, read back with the JSON library.
fn read_manifest(body: &str) -> serde_json::Value {
    let start = body.find(COMMENT_DATA_PREFIX).unwrap() + COMMENT_DATA_PREFIX.len();
    let end = start + body[start..].find(COMMENT_DATA_POSTFIX).unwrap();
    let bytes = base64::engine::general_purpose::STANDARD.decode(&body[start..end]).unwrap();
    serde_json::from_slice(&bytes).unwrap()
}

#[test]
fn test_build_stack_comment_data() {
    let plan = make_plan(&["feat-a", "feat-b"]);

    let mut bookmark_to_pr = NameMap::new();
    bookmark_to_pr.insert("feat-a".to_string(), make_pr(1, "feat-a"));
    bookmark_to_pr.insert("feat-b".to_string(), make_pr(2, "feat-b"));

    let data = build_stack_comment_data(&plan, &bookmark_to_pr);

    assert_eq!(data.version, 1);
    assert_eq!(data.base_branch, "main");
    assert_eq!(data.stack.len(), 2);
    assert_eq!(data.stack[0].bookmark_name, "feat-a");
    assert_eq!(data.stack[0].pr_number, 1);
    assert_eq!(data.stack[0].pr_title, "PR for feat-a");
    assert_eq!(data.stack[1].bookmark_name, "feat-b");
    assert_eq!(data.stack[1].pr_number, 2);
}

#[test]
fn test_build_stack_comment_data_filters_missing_prs() {
    let plan = make_plan(&["feat-a", "feat-b"]);

    let mut bookmark_to_pr = NameMap::new();
    bookmark_to_pr.insert("feat-a".to_string(), make_pr(1, "feat-a"));

    let data = build_stack_comment_data(&plan, &bookmark_to_pr);

    assert_eq!(data.stack.len(), 1);
    assert_eq!(data.stack[0].bookmark_name, "feat-a");
}

#[test]
fn test_format_stack_comment_marks_current() {
    let data = two_item_data();

    let body = format_stack_comment(&data, 1).unwrap();
    assert!(body.contains(&format!("#{} {STACK_COMMENT_THIS_PR}", 2)));
    assert!(!body.contains(&format!("#{} {STACK_COMMENT_THIS_PR}", 1)));
}

#[test]
fn test_format_stack_comment_contains_prefix() {
    let data = StackCommentData {
        version: 1,
        stack: vec![StackItem {
            bookmark_name: "feat-a".to_string(),
            pr_url: "https://example.com/1".to_string(),
            pr_number: 1,
            pr_title: "feat: add auth".to_string(),
        }],
        base_branch: "main".to_string(),
    };

    let body = format_stack_comment(&data, 0).unwrap();
    assert!(body.contains(COMMENT_DATA_PREFIX));
    assert!(body.contains(COMMENT_DATA_POSTFIX));
}

#[test]
fn test_build_stack_comment_data_single_pr() {
    let plan = make_plan(&["feat-a"]);

    let mut bookmark_to_pr = NameMap::new();
    bookmark_to_pr.insert("feat-a".to_string(), make_pr(1, "feat-a"));

    let data = build_stack_comment_data(&plan, &bookmark_to_pr);

    assert_eq!(data.version, 1);
    assert_eq!(data.base_branch, "main");
    assert_eq!(data.stack.len(), 1);
    assert_eq!(data.stack[0].bookmark_name, "feat-a");
    assert_eq!(data.stack[0].pr_number, 1);
}

#[test]
fn test_build_stack_comment_data_three_pr_stack() {
    let plan = make_plan(&["feat-a", "feat-b", "feat-c"]);

    let mut bookmark_to_pr = NameMap::new();
    bookmark_to_pr.insert("feat-a".to_string(), make_pr(1, "feat-a"));
    bookmark_to_pr.insert("feat-b".to_string(), make_pr(2, "feat-b"));
    bookmark_to_pr.insert("feat-c".to_string(), make_pr(3, "feat-c"));

    let data = build_stack_comment_data(&plan, &bookmark_to_pr);

    assert_eq!(data.stack.len(), 3);
    assert_eq!(data.stack[0].pr_number, 1);
    assert_eq!(data.stack[1].pr_number, 2);
    assert_eq!(data.stack[2].pr_number, 3);
}

#[test]
fn test_format_body_marks_current_pr() {
    let data = StackCommentData {
        version: 1,
        stack: vec![make_stack_item("feat-a", 1), make_stack_item("feat-b", 2)],
        base_branch: "main".to_string(),
    };

    let body = format_stack_comment(&data, 1).unwrap();

    assert!(
        body.contains(&format!("#{} {STACK_COMMENT_THIS_PR}", 2)),
        "body should mark PR #2 as current: {body}"
    );
    assert!(
        !body.contains(&format!("#{} {STACK_COMMENT_THIS_PR}", 1)),
        "body should NOT mark PR #1 as current: {body}"
    );
}

#[test]
fn test_format_body_reverse_order() {
    let data = StackCommentData {
        version: 1,
        stack: vec![
            make_stack_item("feat-a", 1),
            make_stack_item("feat-b", 2),
            make_stack_item("feat-c", 3),
        ],
        base_branch: "main".to_string(),
    };

    let body = format_stack_comment(&data, 0).unwrap();

    let pos_1 = body.find("#1").expect("should contain #1");
    let pos_2 = body.find("#2").expect("should contain #2");
    let pos_3 = body.find("#3").expect("should contain #3");

    assert!(pos_3 < pos_2, "PR #3 should appear before #2");
    assert!(pos_2 < pos_1, "PR #2 should appear before #1");
}

#[test]
fn test_format_body_contains_marker() {
    let data = StackCommentData {
        version: 1,
        stack: vec![make_stack_item("feat-a", 1)],
        base_branch: "main".to_string(),
    };

    let body = format_stack_comment(&data, 0).unwrap();

    assert!(body.contains(COMMENT_DATA_PREFIX), "body should contain data prefix");
}

#[test]
fn test_format_body_contains_base_branch() {
    let data = StackCommentData {
        version: 1,
        stack: vec![make_stack_item("feat-a", 1)],
        base_branch: "develop".to_string(),
    };

    let body = format_stack_comment(&data, 0).unwrap();

    assert!(body.contains("`develop`"), "body should contain base branch: {body}");
}

#[test]
fn test_format_body_contains_pr_title() {
    let data = StackCommentData {
        version: 1,
        stack: vec![make_stack_item("feat-a", 1)],
        base_branch: "main".to_string(),
    };

    let body = format_stack_comment(&data, 0).unwrap();

    assert!(body.contains("feat: feat-a"), "body should contain PR title: {body}");
}

#[test]
fn test_comment_body_exact_text() {
    let data = two_item_data();
    let manifest = "{\"version\":1,\"stack\":[{\"bookmark_name\":\"feat-a\",\"pr_url\":\"https://example.com/1\",\"pr_number\":1,\"pr_title\":\"feat: add auth\"},{\"bookmark_name\":\"feat-b\",\"pr_url\":\"https://example.com/2\",\"pr_number\":2,\"pr_title\":\"feat: add sessions\"}],\"base_branch\":\"main\"}";
    assert_eq!(write_manifest(&data).unwrap(), manifest);
    let encoded = base64::engine::general_purpose::STANDARD.encode(manifest);
    let expected = format!(
        "<!--- JJ-RYU_STACK: {encoded} --->\n* feat: add sessions #2\n* **feat: add auth #1 👈**\n* `main`\n\n---\nThis stack of pull requests is managed by [jj-ryu](https://github.com/dmmulroy/jj-ryu)."
    );
    assert_eq!(format_stack_comment(&data, 0).unwrap(), expected);
    assert_eq!(stack_comment_body(&data, 0, &encoded), expected);
    assert_eq!(encode_manifest(manifest), Some(encoded.clone()));
    // The encoding is not the identity.
    assert_ne!(encoded, manifest);
    assert_eq!(
        base64::engine::general_purpose::STANDARD.encode("ab"),
        "YWI="
    );
}

#[test]
fn test_manifest_escapes_texts() {
    let data = StackCommentData {
        version: 1,
        stack: vec![StackItem {
            bookmark_name: "feat/\"quoted\"".to_string(),
            pr_url: "https://example.com/1".to_string(),
            pr_number: 18446744073709551615,
            pr_title: "line\nbreak \\ and ü".to_string(),
        }],
        base_branch: "ma\tin".to_string(),
    };
    let manifest = write_manifest(&data).unwrap();
    assert_eq!(
        manifest,
        "{\"version\":1,\"stack\":[{\"bookmark_name\":\"feat/\\\"quoted\\\"\",\"pr_url\":\"https://example.com/1\",\"pr_number\":18446744073709551615,\"pr_title\":\"line\\nbreak \\\\ and ü\"}],\"base_branch\":\"ma\\tin\"}"
    );
    let value: serde_json::Value = serde_json::from_str(&manifest).unwrap();
    assert_eq!(value["stack"][0]["bookmark_name"].as_str(), Some("feat/\"quoted\""));
    assert_eq!(value["stack"][0]["pr_title"].as_str(), Some("line\nbreak \\ and ü"));
    assert_eq!(value["stack"][0]["pr_number"].as_u64(), Some(18446744073709551615));
    assert_eq!(value["base_branch"].as_str(), Some("ma\tin"));
}

#[test]
fn test_manifest_round_trip_through_comment() {
    // What is read back from a comment is what was built from the plan.
    let plan = make_plan(&["feat-a", "feat-b", "feat-c"]);
    let mut prs = NameMap::new();
    prs.insert("feat-a".to_string(), make_pr(1, "feat-a"));
    prs.insert("feat-c".to_string(), make_pr(30, "feat-c"));
    let data = build_stack_comment_data(&plan, &prs);
    for current in 0..data.stack.len() {
        let body = format_stack_comment(&data, current).unwrap();
        let value = read_manifest(&body);
        assert_eq!(value["version"].as_u64(), Some(1));
        assert_eq!(value["base_branch"].as_str(), Some("main"));
        let stack = value["stack"].as_array().unwrap();
        assert_eq!(stack.len(), data.stack.len());
        for (item, read) in data.stack.iter().zip(stack) {
            assert_eq!(read["bookmark_name"].as_str(), Some(item.bookmark_name.as_str()));
            assert_eq!(read["pr_url"].as_str(), Some(item.pr_url.as_str()));
            assert_eq!(read["pr_number"].as_u64(), Some(item.pr_number));
            assert_eq!(read["pr_title"].as_str(), Some(item.pr_title.as_str()));
            assert_eq!(read.as_object().unwrap().len(), 4);
        }
        assert_eq!(value.as_object().unwrap().len(), 3);
    }
}

#[test]
fn test_manifest_of_empty_stack() {
    let data = StackCommentData { version: 1, stack: vec![], base_branch: "main".to_string() };
    assert_eq!(write_manifest(&data).unwrap(), "{\"version\":1,\"stack\":[],\"base_branch\":\"main\"}");
}

#[test]
fn test_find_stack_comment() {
    let comments = vec![
        PrComment { id: 10, body: "Nice work".to_string() },
        PrComment { id: 11, body: format!("x {COMMENT_DATA_PREFIX_OLD}abc --->") },
        PrComment { id: 12, body: format!("{COMMENT_DATA_PREFIX}abc --->") },
    ];
    assert_eq!(find_stack_comment(&comments), Some(1));
    assert_eq!(find_stack_comment(&comments[2..]), Some(0));
    assert_eq!(find_stack_comment(&comments[..1]), None);
    assert_eq!(find_stack_comment(&[]), None);
    // The prefix has to be there in full.
    let almost = vec![PrComment { id: 1, body: "<!--- JJ-RYU_STACK:".to_string() }];
    assert_eq!(find_stack_comment(&almost), None);

    match stack_comment_action(&comments, "new body".to_string()) {
        CommentAction::Update { comment_id, body } => {
            assert_eq!(comment_id, 11);
            assert_eq!(body, "new body");
        }
        other => panic!("unexpected action {other:?}"),
    }
    match stack_comment_action(&comments[..1], "new body".to_string()) {
        CommentAction::Create { body } => assert_eq!(body, "new body"),
        other => panic!("unexpected action {other:?}"),
    }
}

#[test]
fn test_manifest_frames() {
    assert_eq!(
        frame_item("\"n\"", "\"u\"", 7, "\"t\""),
        "{\"bookmark_name\":\"n\",\"pr_url\":\"u\",\"pr_number\":7,\"pr_title\":\"t\"}"
    );
    assert_eq!(
        frame_manifest(1, &vec!["{}".to_string(), "{}".to_string()], "\"main\""),
        "{\"version\":1,\"stack\":[{},{}],\"base_branch\":\"main\"}"
    );
    assert_eq!(
        frame_manifest(255, &Vec::new(), "\"m\""),
        "{\"version\":255,\"stack\":[],\"base_branch\":\"m\"}"
    );
}
