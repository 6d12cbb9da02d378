use twios::cli::{process_args, resolve_app_params, AppParams, Arg, Args, CliContext};
use twios::config::{FileConfig, LabelConfig, PullRequestQueryType};

fn empty_app_params(date: &str, output_path: &str) -> AppParams {
    AppParams {
        labels: vec![],
        header: vec![],
        exclude_closed_not_merged: false,
        users: vec![],
        date: date.to_string(),
        config_path: "".to_string(),
        context: CliContext::TWIOS,
        comment_body: "".to_string(),
        output_path: output_path.to_string(),
        date_sign: "".to_string(),
        exclude: vec![],
        query_type: PullRequestQueryType::Created,
        dedupe: false,
    }
}

#[test]
fn it_processes_users_args() {
    assert_eq!(
        vec!["BobrImperator".to_string()],
        process_args(vec![Arg(
            "--users".to_string(),
            "BobrImperator".to_string()
        )])
        .users
    );
}

#[test]
fn it_processes_multiple_users_args() {
    assert_eq!(
        vec!["BobrImperator".to_string(), "mansona".to_string()],
        process_args(vec![Arg(
            "--users".to_string(),
            "BobrImperator,mansona".to_string()
        )])
        .users
    );
}

#[test]
fn it_processes_date_args() {
    assert_eq!(
        "2022-02-18".to_string(),
        process_args(vec![Arg("--date".to_string(), "2022-02-18".to_string())]).date
    );
}

#[test]
fn it_processes_after_args() {
    assert_eq!(
        ">".to_string(),
        process_args(vec![Arg("-after".to_string(), "".to_string())]).date_sign
    );
}

#[test]
fn it_processes_before_args() {
    assert_eq!(
        "<".to_string(),
        process_args(vec![Arg("-before".to_string(), "".to_string())]).date_sign
    );
}

#[test]
fn it_processes_config_path_args() {
    assert_eq!(
        "../config/location.json",
        process_args(vec![Arg(
            "--config-path".to_string(),
            "../config/location.json".to_string()
        )])
        .config_path
    );
}

#[test]
fn it_processes_comment_context() {
    let args = process_args(vec![
        Arg("comment".to_string(), "".to_string()),
        Arg("--comment".to_string(), "TWIOS_DATE >2022-01-01".to_string()),
    ]);
    assert_eq!(CliContext::COMMENT, args.context);
    assert_eq!("TWIOS_DATE >2022-01-01", args.comment_body);
}

#[test]
fn it_processes_utility_flags() {
    let args = process_args(vec![
        Arg("utility".to_string(), "".to_string()),
        Arg("-edit".to_string(), "".to_string()),
        Arg("-dedupe".to_string(), "".to_string()),
    ]);
    assert_eq!(CliContext::UTILITY, args.context);
    assert!(args.edit);
    assert!(args.dedupe);
}

#[test]
fn it_ignores_unknown_args() {
    let args = process_args(vec![Arg("--bogus".to_string(), "value".to_string())]);
    assert_eq!(
        Args {
            users: vec![],
            date: "".to_string(),
            date_sign: "".to_string(),
            config_path: "".to_string(),
            context: CliContext::TWIOS,
            comment_body: "".to_string(),
            edit: false,
            dedupe: false,
        },
        args
    );
}

#[test]
fn it_returns_correct_file_name_given_just_date() {
    let app_params = empty_app_params("2022-06-30", "");
    assert_eq!("2022-06-30.md", app_params.file_name());
}

#[test]
fn it_returns_correct_file_name_given_date_range() {
    let app_params = empty_app_params("2022-06-23..2022-06-30", "");
    assert_eq!("2022-06-30.md", app_params.file_name());
}

#[test]
fn it_returns_correct_file_name_given_date_range_and_output_path() {
    let app_params = empty_app_params("2022-06-23..2022-06-30", "src/twios/");
    assert_eq!("src/twios/2022-06-30.md", app_params.file_name());
}

#[test]
fn it_resolves_params_from_a_config() {
    let args = process_args(vec![Arg("-edit".to_string(), "".to_string())]);
    let config = FileConfig {
        labels: vec![LabelConfig {
            name: "Ember".to_string(),
            repos: vec!["org/b".to_string()],
        }],
        header: vec!["title".to_string()],
        users: vec!["someone".to_string()],
        exclude: vec!["org/c".to_string()],
        exclude_closed_not_merged: true,
        output_path: "out/".to_string(),
        last_date: ">2021-11-28".to_string(),
        query_type: PullRequestQueryType::Merged,
    };
    let params = resolve_app_params(args, Some(&config), "2022-01-01..2022-01-08".to_string());
    // edit mode without a --date falls back to the stored cursor
    assert_eq!(">2021-11-28", params.date);
    assert_eq!(config.labels, params.labels);
    assert_eq!(config.users, params.users);
    assert_eq!(config.exclude, params.exclude);
    assert_eq!("out/", params.output_path);
    assert_eq!(PullRequestQueryType::Merged, params.query_type);
    assert!(params.exclude_closed_not_merged);
}

#[test]
fn it_resolves_params_without_a_config() {
    let args = process_args(vec![Arg(
        "--users".to_string(),
        "BobrImperator".to_string(),
    )]);
    let params = resolve_app_params(args, None, "2022-01-01..2022-01-08".to_string());
    assert_eq!("2022-01-01..2022-01-08", params.date);
    assert_eq!(vec!["BobrImperator".to_string()], params.users);
    assert_eq!(PullRequestQueryType::Created, params.query_type);
    assert_eq!("", params.output_path);
    assert_eq!("", params.comment_body);
}
