use twios::comment::{TwiosComment, TwiosCommentOutput};
use twios::config::{
    dedupe_file_config, merge_with_file_config, FileConfig, LabelConfig, PullRequestQueryType,
};

fn empty_file_config() -> FileConfig {
    FileConfig {
        exclude_closed_not_merged: false,
        header: vec![],
        output_path: "".to_string(),
        exclude: vec![],
        users: vec![],
        labels: vec![],
        last_date: "".to_string(),
        query_type: PullRequestQueryType::Created,
    }
}

fn comment_body() -> String {
    r#"
Post's file path
- TWIOS_PATH /twios/ 
Post's date
- TWIOS_DATE >2021-11-28 
Available categories
- TWIOS_CATEGORIES Ember,Javascript,Typescript
- TWIOS_UNLABELLED 
 - [EmbarkStudios/spdx] UNKNOWN @SomeOne
 - [mainmatter/ember-simple-auth] Ember @SomeTwo  
 - [simplabs/ember-error-route] EXCLUDED @SomeThree
- Doesn't catch this
            "#
    .to_string()
}

#[test]
fn it_reads_issue_comment() {
    let expected = TwiosComment {
        body: comment_body(),
    };

    assert_eq!(
        TwiosCommentOutput {
            file_path: "/twios/".to_string(),
            date: ">2021-11-28".to_string(),
            excluded: vec!["simplabs/ember-error-route".to_string()],
            labels: vec![LabelConfig {
                name: "Ember".to_string(),
                repos: vec!["mainmatter/ember-simple-auth".to_string()]
            }],
        },
        expected.read()
    );
}

#[test]
fn it_merges_with_file_config() {
    let expected = TwiosComment {
        body: comment_body(),
    };

    let file_config = empty_file_config();

    assert_eq!(
        FileConfig {
            exclude_closed_not_merged: false,
            header: vec![],
            output_path: "".to_string(),
            exclude: vec!["simplabs/ember-error-route".to_string()],
            users: vec![],
            labels: vec![LabelConfig {
                name: "Ember".to_string(),
                repos: vec!["mainmatter/ember-simple-auth".to_string()]
            }],
            last_date: ">2021-11-28".to_string(),
            query_type: PullRequestQueryType::Created,
        },
        merge_with_file_config(&mut expected.read(), file_config),
    );
}

#[test]
fn it_catches_labels_with_spaces() {
    let expected = TwiosComment {
        body: r#"
Post's file path
- TWIOS_PATH /twios/ 
Post's date
- TWIOS_DATE >2021-11-28 
Available categories
- TWIOS_CATEGORIES Ember,Javascript,Typescript
- TWIOS_UNLABELLED 
 - [EmbarkStudios/spdx] UNKNOWN @SomeOne
 - [mainmatter/ember-simple-auth] Ember With Spaces @SomeTwo  
 - [simplabs/ember-error-route] EXCLUDED @SomeThree
- Doesn't catch this
            "#
        .to_string(),
    };

    let file_config = empty_file_config();

    assert_eq!(
        FileConfig {
            exclude_closed_not_merged: false,
            header: vec![],
            output_path: "".to_string(),
            exclude: vec!["simplabs/ember-error-route".to_string()],
            users: vec![],
            labels: vec![LabelConfig {
                name: "Ember With Spaces".to_string(),
                repos: vec!["mainmatter/ember-simple-auth".to_string()]
            }],
            last_date: ">2021-11-28".to_string(),
            query_type: PullRequestQueryType::Created,
        },
        merge_with_file_config(&mut expected.read(), file_config),
    );
}

#[test]
fn it_doesnt_push_already_exisiting_records() {
    let expected = TwiosComment {
        body: comment_body(),
    };

    let file_config = FileConfig {
        exclude_closed_not_merged: false,
        header: vec![],
        output_path: "".to_string(),
        exclude: vec!["simplabs/ember-error-route".to_string()],
        users: vec![],
        labels: vec![LabelConfig {
            name: "Ember".to_string(),
            repos: vec!["mainmatter/ember-simple-auth".to_string()],
        }],
        last_date: "".to_string(),
        query_type: PullRequestQueryType::Created,
    };

    assert_eq!(
        FileConfig {
            exclude_closed_not_merged: false,
            header: vec![],
            output_path: "".to_string(),
            exclude: vec!["simplabs/ember-error-route".to_string()],
            users: vec![],
            labels: vec![LabelConfig {
                name: "Ember".to_string(),
                repos: vec!["mainmatter/ember-simple-auth".to_string()]
            }],
            last_date: ">2021-11-28".to_string(),
            query_type: PullRequestQueryType::Created,
        },
        merge_with_file_config(&mut expected.read(), file_config),
    );
}

#[test]
fn it_dedupes_config() {
    let mut file_config = FileConfig {
        exclude_closed_not_merged: false,
        header: vec![],
        output_path: "".to_string(),
        exclude: vec![
            "simplabs/ember-error-route".to_string(),
            "simplabs/ember-error-route".to_string(),
        ],
        users: vec![],
        labels: vec![LabelConfig {
            name: "Ember".to_string(),
            repos: vec![
                "mainmatter/ember-simple-auth".to_string(),
                "mainmatter/ember-simple-auth".to_string(),
            ],
        }],
        last_date: "".to_string(),
        query_type: PullRequestQueryType::Created,
    };

    dedupe_file_config(&mut file_config);

    assert_eq!(
        FileConfig {
            exclude_closed_not_merged: false,
            header: vec![],
            output_path: "".to_string(),
            exclude: vec!["simplabs/ember-error-route".to_string()],
            users: vec![],
            labels: vec![LabelConfig {
                name: "Ember".to_string(),
                repos: vec!["mainmatter/ember-simple-auth".to_string()]
            }],
            last_date: "".to_string(),
            query_type: PullRequestQueryType::Created,
        },
        file_config,
    );
}

#[test]
fn it_dedupes_scattered_duplicates() {
    let mut file_config = empty_file_config();
    file_config.labels = vec![LabelConfig {
        name: "Ember".to_string(),
        repos: vec![
            "org/a".to_string(),
            "org/b".to_string(),
            "org/a".to_string(),
        ],
    }];
    file_config.exclude = vec![
        "org/x".to_string(),
        "org/y".to_string(),
        "org/x".to_string(),
    ];

    dedupe_file_config(&mut file_config);

    assert_eq!(
        vec!["org/a".to_string(), "org/b".to_string()],
        file_config.labels[0].repos
    );
    assert_eq!(
        vec!["org/x".to_string(), "org/y".to_string()],
        file_config.exclude
    );
}

#[test]
fn it_dedupes_idempotently() {
    let mut file_config = empty_file_config();
    file_config.exclude = vec![
        "org/x".to_string(),
        "org/x".to_string(),
        "org/y".to_string(),
    ];
    dedupe_file_config(&mut file_config);
    let once = file_config.clone();
    dedupe_file_config(&mut file_config);
    assert_eq!(once, file_config);
}

#[test]
fn it_reads_an_empty_comment() {
    let comment = TwiosComment {
        body: "".to_string(),
    };
    assert_eq!(
        TwiosCommentOutput {
            labels: vec![],
            excluded: vec![],
            date: "".to_string(),
            file_path: "".to_string(),
        },
        comment.read()
    );
}

#[test]
fn it_reads_directives_without_user_mentions() {
    let comment = TwiosComment {
        body: "- TWIOS_PATH /twios/\n- TWIOS_DATE >2021-11-28\n- TWIOS_UNLABELLED\n - [org/a] UNKNOWN\n - [org/b] Ember\n - [org/c] EXCLUDED\n"
            .to_string(),
    };
    assert_eq!(
        TwiosCommentOutput {
            file_path: "/twios/".to_string(),
            date: ">2021-11-28".to_string(),
            labels: vec![LabelConfig {
                name: "Ember".to_string(),
                repos: vec!["org/b".to_string()],
            }],
            excluded: vec!["org/c".to_string()],
        },
        comment.read()
    );
}

#[test]
fn it_accumulates_a_label_across_lines() {
    let comment = TwiosComment {
        body: "- TWIOS_UNLABELLED\n - [org/a] Ember\n - [org/b] Javascript\n - [org/c] Ember\n"
            .to_string(),
    };
    let output = comment.read();
    assert_eq!(
        vec![
            LabelConfig {
                name: "Ember".to_string(),
                repos: vec!["org/a".to_string(), "org/c".to_string()],
            },
            LabelConfig {
                name: "Javascript".to_string(),
                repos: vec!["org/b".to_string()],
            },
        ],
        output.labels
    );
}

#[test]
fn it_skips_malformed_bullet_lines() {
    let comment = TwiosComment {
        body: "- TWIOS_UNLABELLED\n - [org/a broken line\n - [org/b] Ember\n".to_string(),
    };
    let output = comment.read();
    assert_eq!(
        vec![LabelConfig {
            name: "Ember".to_string(),
            repos: vec!["org/b".to_string()],
        }],
        output.labels
    );
    assert_eq!(Vec::<String>::new(), output.excluded);
}

#[test]
fn it_reconciles_against_an_empty_config() {
    let comment = TwiosComment {
        body: "- TWIOS_PATH /twios/\n- TWIOS_DATE >2021-11-28\n- TWIOS_UNLABELLED\n - [org/a] UNKNOWN\n - [org/b] Ember\n - [org/c] EXCLUDED\n"
            .to_string(),
    };
    let merged = merge_with_file_config(&mut comment.read(), empty_file_config());
    assert_eq!(
        vec![LabelConfig {
            name: "Ember".to_string(),
            repos: vec!["org/b".to_string()],
        }],
        merged.labels
    );
    assert_eq!(vec!["org/c".to_string()], merged.exclude);
    assert_eq!(">2021-11-28", merged.last_date);
}

#[test]
fn it_reconciles_idempotently() {
    let comment = TwiosComment {
        body: "- TWIOS_DATE >2021-11-28\n- TWIOS_UNLABELLED\n - [org/b] Ember\n - [org/c] EXCLUDED\n"
            .to_string(),
    };
    let once = merge_with_file_config(&mut comment.read(), empty_file_config());
    let twice = merge_with_file_config(&mut comment.read(), once.clone());
    assert_eq!(once, twice);
}

#[test]
fn it_preserves_order_when_reconciling() {
    let comment = TwiosComment {
        body: "- TWIOS_UNLABELLED\n - [org/new] Ember\n - [org/other] Fresh\n".to_string(),
    };
    let config = FileConfig {
        labels: vec![
            LabelConfig {
                name: "Javascript".to_string(),
                repos: vec!["org/js".to_string()],
            },
            LabelConfig {
                name: "Ember".to_string(),
                repos: vec!["org/old".to_string()],
            },
        ],
        exclude: vec!["org/x".to_string()],
        ..empty_file_config()
    };
    let merged = merge_with_file_config(&mut comment.read(), config);
    assert_eq!(
        vec![
            LabelConfig {
                name: "Javascript".to_string(),
                repos: vec!["org/js".to_string()],
            },
            LabelConfig {
                name: "Ember".to_string(),
                repos: vec!["org/old".to_string(), "org/new".to_string()],
            },
            LabelConfig {
                name: "Fresh".to_string(),
                repos: vec!["org/other".to_string()],
            },
        ],
        merged.labels
    );
    assert_eq!(vec!["org/x".to_string()], merged.exclude);
}

#[test]
fn it_suppresses_unknown_repositories() {
    let comment = TwiosComment {
        body: "- TWIOS_UNLABELLED\n - [org/a] UNKNOWN\n".to_string(),
    };
    let output = comment.read();
    assert_eq!(Vec::<LabelConfig>::new(), output.labels);
    assert_eq!(Vec::<String>::new(), output.excluded);
}

#[test]
fn it_keeps_excluded_repositories_out_of_labels() {
    let comment = TwiosComment {
        body: "- TWIOS_UNLABELLED\n - [org/c] EXCLUDED\n - [org/c] EXCLUDED\n".to_string(),
    };
    let output = comment.read();
    assert_eq!(Vec::<LabelConfig>::new(), output.labels);
    assert_eq!(
        vec!["org/c".to_string(), "org/c".to_string()],
        output.excluded
    );
}

#[test]
fn it_accumulates_a_label_across_blocks() {
    let comment = TwiosComment {
        body: "- TWIOS_UNLABELLED\n - [org/a] Ember\nSome prose\n- TWIOS_UNLABELLED\n - [org/b] Ember\n"
            .to_string(),
    };
    let output = comment.read();
    assert_eq!(
        vec![LabelConfig {
            name: "Ember".to_string(),
            repos: vec!["org/a".to_string(), "org/b".to_string()],
        }],
        output.labels
    );
}

#[test]
fn it_overwrites_the_date_cursor_even_with_an_empty_date() {
    // A comment without a date directive resets the stored cursor to the
    // empty string; reconciliation always overwrites it.
    let comment = TwiosComment {
        body: "- TWIOS_UNLABELLED\n - [org/b] Ember\n".to_string(),
    };
    let mut config = empty_file_config();
    config.last_date = ">2021-11-28".to_string();
    let merged = merge_with_file_config(&mut comment.read(), config);
    assert_eq!("", merged.last_date);
}

#[test]
fn it_excludes_a_repository_tagged_elsewhere_with_a_label() {
    // Exclusion takes precedence: an EXCLUDED tag keeps the repository out
    // of every label, even when another bullet of the same text labels it.
    let comment = TwiosComment {
        body: "- TWIOS_UNLABELLED\n - [org/c] Ember\n - [org/c] EXCLUDED\n - [org/b] Ember\n"
            .to_string(),
    };
    let output = comment.read();
    assert_eq!(
        vec![LabelConfig {
            name: "Ember".to_string(),
            repos: vec!["org/b".to_string()],
        }],
        output.labels
    );
    assert_eq!(vec!["org/c".to_string()], output.excluded);
}

#[test]
fn it_excludes_regardless_of_bullet_order() {
    // The EXCLUDED tag wins whether it stands before or after the label.
    let comment = TwiosComment {
        body: "- TWIOS_UNLABELLED\n - [org/c] EXCLUDED\n - [org/c] Ember\n".to_string(),
    };
    let output = comment.read();
    assert_eq!(
        vec![LabelConfig {
            name: "Ember".to_string(),
            repos: vec![],
        }],
        output.labels
    );
    assert_eq!(vec!["org/c".to_string()], output.excluded);
}

#[test]
fn it_merges_a_spaced_label_beside_its_prefix() {
    // Label names match byte for byte: "Ember With Spaces" is a label of
    // its own, appended after the existing entries, and "Ember" keeps its
    // repositories untouched.
    let comment = TwiosComment {
        body: "- TWIOS_UNLABELLED\n - [org/s] Ember With Spaces\n".to_string(),
    };
    let config = FileConfig {
        labels: vec![LabelConfig {
            name: "Ember".to_string(),
            repos: vec!["org/e".to_string()],
        }],
        ..empty_file_config()
    };
    let merged = merge_with_file_config(&mut comment.read(), config);
    assert_eq!(
        vec![
            LabelConfig {
                name: "Ember".to_string(),
                repos: vec!["org/e".to_string()],
            },
            LabelConfig {
                name: "Ember With Spaces".to_string(),
                repos: vec!["org/s".to_string()],
            },
        ],
        merged.labels
    );
}
