use twios::digest::{
    build_pr_query, digest_lines, extract_definitions, filter_excluded_items,
    filter_items_by_merge_status, format_item, format_items, format_label, item_from_issue_parts,
    match_items_with_labels, sort_items_by_repo, Item, ItemMergeStatus, LabelledItem,
};

fn items_helper() -> Vec<Item> {
    vec![
        Item {
            issue_number: "63".to_string(),
            issue_title: "Update nan".to_string(),
            issue_url: "https://github.com/atom/keyboard-layout/pull/63".to_string(),
            organization_name: "atom".to_string(),
            repository_name: "keyboard-layout".to_string(),
            full_repository_name: "atom/keyboard-layout".to_string(),
            repository_url: "https://github.com/atom/keyboard-layout".to_string(),
            user_login: "mansona".to_string(),
            user_url: "https://github.com/mansona".to_string(),
            state: "closed".to_string(),
            merge_status: ItemMergeStatus::Unknown,
        },
        Item {
            issue_number: "798".to_string(),
            issue_title: "Ember 4 compatibility".to_string(),
            issue_url: "https://github.com/ember-engines/ember-engines/pull/798".to_string(),
            organization_name: "ember-engines".to_string(),
            repository_name: "ember-engines".to_string(),
            full_repository_name: "ember-engines/ember-engines".to_string(),
            repository_url: "https://github.com/ember-engines/ember-engines".to_string(),
            user_login: "BobrImperator".to_string(),
            user_url: "https://github.com/BobrImperator".to_string(),
            state: "open".to_string(),
            merge_status: ItemMergeStatus::Unknown,
        },
    ]
}

fn repo_configs_helper() -> Vec<LabelledItem> {
    vec![LabelledItem {
        name: "Ember".to_string(),
        repos: vec!["ember-engines/ember-engines".to_string()],
        items: vec![],
    }]
}

#[test]
fn it_formats_label() {
    assert_eq!("## Ember", format_label(&repo_configs_helper()[0]));
}

#[test]
fn it_formats_item() {
    assert_eq!(
        "- [atom/keyboard-layout] [#63](https://github.com/atom/keyboard-layout/pull/63) Update nan ([@mansona])",
        format_item("mansona".to_string(), &items_helper()[0])
    );
}

#[test]
fn it_formats_items() {
    let expected = vec![
        "- [atom/keyboard-layout] [#63](https://github.com/atom/keyboard-layout/pull/63) Update nan ([@mansona])",
        "- [ember-engines/ember-engines] [#798](https://github.com/ember-engines/ember-engines/pull/798) Ember 4 compatibility ([@BobrImperator])",
    ];
    assert_eq!(expected, format_items(&items_helper()));
}

#[test]
fn it_extracts_definitions() {
    let expected = vec![
        "[@BobrImperator]: https://github.com/BobrImperator",
        "[@mansona]: https://github.com/mansona",
        "[atom/keyboard-layout]: https://github.com/atom/keyboard-layout",
        "[ember-engines/ember-engines]: https://github.com/ember-engines/ember-engines",
    ];
    assert_eq!(expected, extract_definitions(&items_helper()));
}

#[test]
fn it_deduplicates_definitions() {
    let mut items = items_helper();
    items.push(items_helper()[0].clone());
    let expected = vec![
        "[@BobrImperator]: https://github.com/BobrImperator",
        "[@mansona]: https://github.com/mansona",
        "[atom/keyboard-layout]: https://github.com/atom/keyboard-layout",
        "[ember-engines/ember-engines]: https://github.com/ember-engines/ember-engines",
    ];
    assert_eq!(expected, extract_definitions(&items));
}

#[test]
fn it_matches_items_with_labels() {
    let items = items_helper();
    let atom_keyboard_item = items[0].clone();
    let ember_engines_item = items[1].clone();

    let mut labelled_items = vec![LabelledItem {
        name: "Ember".to_string(),
        repos: vec!["ember-engines/ember-engines".to_string()],
        items: vec![],
    }];

    let unknown_items = match_items_with_labels(&mut labelled_items, &items);
    let expected = (
        vec![LabelledItem {
            name: "Ember".to_string(),
            repos: vec!["ember-engines/ember-engines".to_string()],
            items: vec![ember_engines_item],
        }],
        vec![atom_keyboard_item],
    );

    assert_eq!(expected, (labelled_items, unknown_items));
}

#[test]
fn it_filters_not_merged_items() {
    let items = vec![
        Item {
            issue_number: "63".to_string(),
            issue_title: "Update nan".to_string(),
            issue_url: "https://github.com/atom/keyboard-layout/pull/63".to_string(),
            organization_name: "atom".to_string(),
            repository_name: "keyboard-layout".to_string(),
            full_repository_name: "atom/keyboard-layout".to_string(),
            repository_url: "https://github.com/atom/keyboard-layout".to_string(),
            user_login: "mansona".to_string(),
            user_url: "https://github.com/mansona".to_string(),
            state: "closed".to_string(),
            merge_status: ItemMergeStatus::NotMerged,
        },
        Item {
            issue_number: "798".to_string(),
            issue_title: "Ember 4 compatibility".to_string(),
            issue_url: "https://github.com/ember-engines/ember-engines/pull/798".to_string(),
            organization_name: "ember-engines".to_string(),
            repository_name: "ember-engines".to_string(),
            full_repository_name: "ember-engines/ember-engines".to_string(),
            repository_url: "https://github.com/ember-engines/ember-engines".to_string(),
            user_login: "BobrImperator".to_string(),
            user_url: "https://github.com/BobrImperator".to_string(),
            state: "open".to_string(),
            merge_status: ItemMergeStatus::Unknown,
        },
    ];
    assert_eq!(vec![items[1].clone()], filter_items_by_merge_status(items))
}

#[test]
fn it_builds_the_pr_query() {
    assert_eq!(
        "is:pr author:mansona created:>2021-11-28",
        build_pr_query(
            &"mansona".to_string(),
            &">".to_string(),
            &"2021-11-28".to_string()
        )
    );
}

#[test]
fn it_classifies_merge_answers() {
    assert_eq!(ItemMergeStatus::Merged, ItemMergeStatus::from_query(Some(true)));
    assert_eq!(
        ItemMergeStatus::NotMerged,
        ItemMergeStatus::from_query(Some(false))
    );
    assert_eq!(ItemMergeStatus::Unknown, ItemMergeStatus::from_query(None));
}

#[test]
fn it_builds_an_item_from_issue_parts() {
    let item = item_from_issue_parts(
        "https://github.com/atom/keyboard-layout/pull/63".to_string(),
        "/atom/keyboard-layout/pull/63".to_string(),
        "63".to_string(),
        "Update nan".to_string(),
        "closed".to_string(),
        "mansona".to_string(),
        "https://github.com/mansona".to_string(),
    );
    assert_eq!("atom", item.organization_name);
    assert_eq!("keyboard-layout", item.repository_name);
    assert_eq!("atom/keyboard-layout", item.full_repository_name);
    assert_eq!(
        "https://github.com/atom/keyboard-layout",
        item.repository_url
    );
    assert_eq!(ItemMergeStatus::Unknown, item.merge_status);
}

#[test]
fn it_filters_excluded_items() {
    let items = items_helper();
    let kept = filter_excluded_items(items, &vec!["atom/keyboard-layout".to_string()]);
    assert_eq!(vec![items_helper()[1].clone()], kept);
}

#[test]
fn it_sorts_items_by_repository() {
    let items = items_helper();
    let sorted = sort_items_by_repo(vec![items[1].clone(), items[0].clone()]);
    assert_eq!(vec![items[0].clone(), items[1].clone()], sorted);
}

#[test]
fn it_renders_digest_lines() {
    let items = items_helper();
    let mut labelled_items = repo_configs_helper();
    let unknown = match_items_with_labels(&mut labelled_items, &items);
    let lines = digest_lines(&labelled_items, &unknown);
    let expected = vec![
        "## Ember",
        "",
        "- [ember-engines/ember-engines] [#798](https://github.com/ember-engines/ember-engines/pull/798) Ember 4 compatibility ([@BobrImperator])",
        "",
        "## Unknown",
        "",
        "- [atom/keyboard-layout] [#63](https://github.com/atom/keyboard-layout/pull/63) Update nan ([@mansona])",
    ];
    assert_eq!(expected, lines);
}
