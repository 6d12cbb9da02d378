//! Command-line argument processing and run parameters: the pure part.
//! Reading the process arguments, the clock and the configuration file
//! belongs to the caller, which hands the results in as plain values.

use vstd::prelude::*;

use crate::chars::{find_char, find_char_from, str_eq};
use crate::config::{ConfigModel, FileConfig, LabelConfig, LabelModel, PullRequestQueryType};

verus! {

/// Which of the program's modes a run is in.
#[derive(Debug, Clone, Copy, PartialEq, Eq, Structural)]
pub enum CliContext {
    TWIOS,
    COMMENT,
    UTILITY,
}

/// One `name=value` argument pair.
#[derive(Debug)]
pub struct Arg(pub String, pub String);

impl View for Arg {
    type V = (Seq<char>, Seq<char>);

    open spec fn view(&self) -> (Seq<char>, Seq<char>) {
        (self.0@, self.1@)
    }
}

impl DeepView for Arg {
    type V = (Seq<char>, Seq<char>);

    open spec fn deep_view(&self) -> (Seq<char>, Seq<char>) {
        self.view()
    }
}

/// The processed command-line arguments.
#[derive(Debug, PartialEq)]
pub struct Args {
    pub users: Vec<String>,
    pub date: String,
    pub date_sign: String,
    pub config_path: String,
    pub context: CliContext,
    pub comment_body: String,
    pub edit: bool,
    pub dedupe: bool,
}

/// Mathematical model of `Args`.
#[verifier::ext_equal]
pub ghost struct ArgsModel {
    pub users: Seq<Seq<char>>,
    pub date: Seq<char>,
    pub date_sign: Seq<char>,
    pub config_path: Seq<char>,
    pub context: CliContext,
    pub comment_body: Seq<char>,
    pub edit: bool,
    pub dedupe: bool,
}

impl View for Args {
    type V = ArgsModel;

    open spec fn view(&self) -> ArgsModel {
        ArgsModel {
            users: self.users.deep_view(),
            date: self.date@,
            date_sign: self.date_sign@,
            config_path: self.config_path@,
            context: self.context,
            comment_body: self.comment_body@,
            edit: self.edit,
            dedupe: self.dedupe,
        }
    }
}

/// The arguments before any pair is processed.
pub open spec fn default_args_model() -> ArgsModel {
    ArgsModel {
        users: Seq::empty(),
        date: Seq::empty(),
        date_sign: Seq::empty(),
        config_path: Seq::empty(),
        context: CliContext::TWIOS,
        comment_body: Seq::empty(),
        edit: false,
        dedupe: false,
    }
}

/// Splits `s` at every occurrence of `sep`, from position `i` on.  An empty
/// text yields one empty piece, as `str::split` does.
pub open spec fn split_from(s: Seq<char>, i: int, sep: char) -> Seq<Seq<char>>
    decreases s.len() - i when 0 <= i <= s.len()
{
    let j = find_char_from(s, i, sep);
    if j >= s.len() {
        seq![s.subrange(i, s.len() as int)]
    } else {
        proof {
            crate::chars::lemma_find_char_from_bounds(s, i, sep);
        }
        seq![s.subrange(i, j)] + split_from(s, j + 1, sep)
    }
}

/// Splits a whole text at every occurrence of `sep`.
pub open spec fn split_on(s: Seq<char>, sep: char) -> Seq<Seq<char>> {
    split_from(s, 0, sep)
}

/// How one argument pair changes the processed arguments.  A pair whose
/// name is not recognised changes nothing.
pub open spec fn apply_arg(m: ArgsModel, name: Seq<char>, value: Seq<char>) -> ArgsModel {
    if name == "comment"@ {
        ArgsModel { context: CliContext::COMMENT, ..m }
    } else if name == "utility"@ {
        ArgsModel { context: CliContext::UTILITY, ..m }
    } else if name == "--comment"@ {
        ArgsModel { comment_body: value, ..m }
    } else if name == "--users"@ {
        ArgsModel { users: m.users + split_on(value, ','), ..m }
    } else if name == "--date"@ {
        ArgsModel { date: value, ..m }
    } else if name == "-before"@ {
        ArgsModel { date_sign: "<"@, ..m }
    } else if name == "-after"@ {
        ArgsModel { date_sign: ">"@, ..m }
    } else if name == "-edit"@ {
        ArgsModel { edit: true, ..m }
    } else if name == "-dedupe"@ {
        ArgsModel { dedupe: true, ..m }
    } else if name == "--config-path"@ {
        ArgsModel { config_path: value, ..m }
    } else {
        m
    }
}

/// Applies every argument pair in order.
pub open spec fn apply_args(m: ArgsModel, pairs: Seq<(Seq<char>, Seq<char>)>) -> ArgsModel
    decreases pairs.len(),
{
    if pairs.len() == 0 {
        m
    } else {
        apply_args(apply_arg(m, pairs[0].0, pairs[0].1), pairs.drop_first())
    }
}

/// What processing a list of argument pairs yields.
pub open spec fn process_args_model(pairs: Seq<(Seq<char>, Seq<char>)>) -> ArgsModel {
    apply_args(default_args_model(), pairs)
}

/// Splits a string at every occurrence of `sep`.
pub(crate) fn split_string(s: &str, sep: char) -> (r: Vec<String>)
    ensures
        r.deep_view() == split_on(s@, sep),
{
    let n = s.unicode_len();
    let mut r: Vec<String> = Vec::new();
    let mut start: usize = 0;
    let mut done = false;
    while !done
        invariant
            0 <= start <= n,
            n == s@.len(),
            !done ==> split_on(s@, sep) == r.deep_view() + split_from(s@, start as int, sep),
            done ==> r.deep_view() == split_on(s@, sep),
        decreases n - start + (if done {
            0int
        } else {
            1int
        }),
    {
        let ghost r0 = r.deep_view();
        let j = find_char(s, start, n, sep);
        let piece = String::from_str(s.substring_char(start, j));
        r.push(piece);
        proof {
            assert(r.deep_view() =~= r0.push(s@.subrange(start as int, j as int)));
        }
        if j >= n {
            done = true;
            proof {
                assert(split_from(s@, start as int, sep) =~= seq![
                    s@.subrange(start as int, n as int),
                ]);
                assert(r.deep_view() =~= r0 + split_from(s@, start as int, sep));
            }
        } else {
            proof {
                assert(split_from(s@, start as int, sep) == seq![
                    s@.subrange(start as int, j as int),
                ] + split_from(s@, j as int + 1, sep));
                assert(r.deep_view() + split_from(s@, j as int + 1, sep) =~= r0 + split_from(
                    s@,
                    start as int,
                    sep,
                ));
            }
            start = j + 1;
        }
    }
    r
}

/// Processes the raw `name=value` pairs into the run's arguments.  Pairs
/// with unrecognised names have no effect.
#[verifier::loop_isolation(false)]
pub fn process_args(pairs: Vec<Arg>) -> (args: Args)
    ensures
        args@ == process_args_model(pairs.deep_view()),
{
    let ghost pv = pairs.deep_view();
    let mut args = Args {
        users: Vec::new(),
        date: String::new(),
        date_sign: String::new(),
        config_path: String::new(),
        context: CliContext::TWIOS,
        comment_body: String::new(),
        edit: false,
        dedupe: false,
    };
    proof {
        assert(args@ =~= default_args_model());
        assert(pv.skip(0) =~= pv);
    }
    let mut i: usize = 0;
    while i < pairs.len()
        invariant
            0 <= i <= pairs.len(),
            apply_args(args@, pv.skip(i as int)) == process_args_model(pv),
        decreases pairs.len() - i,
    {
        let ghost m0 = args@;
        let ghost name = pv[i as int].0;
        let ghost value = pv[i as int].1;
        proof {
            assert(pairs@[i as int]@ == pv[i as int]);
            assert(pv.skip(i as int)[0] == pv[i as int]);
            assert(pv.skip(i as int).drop_first() =~= pv.skip(i as int + 1));
        }
        if str_eq(pairs[i].0.as_str(), "comment") {
            args.context = CliContext::COMMENT;
        } else if str_eq(pairs[i].0.as_str(), "utility") {
            args.context = CliContext::UTILITY;
        } else if str_eq(pairs[i].0.as_str(), "--comment") {
            args.comment_body = pairs[i].1.clone();
        } else if str_eq(pairs[i].0.as_str(), "--users") {
            let ghost users0 = args.users.deep_view();
            let mut pieces = split_string(pairs[i].1.as_str(), ',');
            args.users.append(&mut pieces);
            proof {
                assert(args.users.deep_view() =~= users0 + split_on(value, ','));
            }
        } else if str_eq(pairs[i].0.as_str(), "--date") {
            args.date = pairs[i].1.clone();
        } else if str_eq(pairs[i].0.as_str(), "-before") {
            args.date_sign = String::from_str("<");
        } else if str_eq(pairs[i].0.as_str(), "-after") {
            args.date_sign = String::from_str(">");
        } else if str_eq(pairs[i].0.as_str(), "-edit") {
            args.edit = true;
        } else if str_eq(pairs[i].0.as_str(), "-dedupe") {
            args.dedupe = true;
        } else if str_eq(pairs[i].0.as_str(), "--config-path") {
            args.config_path = pairs[i].1.clone();
        }
        proof {
            assert(args@ =~= apply_arg(m0, name, value));
        }
        i = i + 1;
    }
    proof {
        assert(pv.skip(pv.len() as int) =~= Seq::<(Seq<char>, Seq<char>)>::empty());
    }
    args
}

/// The parameters of one digest run.
#[derive(Debug, PartialEq)]
pub struct AppParams {
    pub exclude_closed_not_merged: bool,
    pub query_type: PullRequestQueryType,
    pub labels: Vec<LabelConfig>,
    pub header: Vec<String>,
    pub users: Vec<String>,
    pub exclude: Vec<String>,
    pub date: String,
    pub date_sign: String,
    pub config_path: String,
    pub output_path: String,
    pub context: CliContext,
    pub comment_body: String,
    pub dedupe: bool,
}

/// Mathematical model of `AppParams`.
#[verifier::ext_equal]
pub ghost struct ParamsModel {
    pub exclude_closed_not_merged: bool,
    pub query_type: PullRequestQueryType,
    pub labels: Seq<LabelModel>,
    pub header: Seq<Seq<char>>,
    pub users: Seq<Seq<char>>,
    pub exclude: Seq<Seq<char>>,
    pub date: Seq<char>,
    pub date_sign: Seq<char>,
    pub config_path: Seq<char>,
    pub output_path: Seq<char>,
    pub context: CliContext,
    pub comment_body: Seq<char>,
    pub dedupe: bool,
}

impl View for AppParams {
    type V = ParamsModel;

    open spec fn view(&self) -> ParamsModel {
        ParamsModel {
            exclude_closed_not_merged: self.exclude_closed_not_merged,
            query_type: self.query_type,
            labels: self.labels.deep_view(),
            header: self.header.deep_view(),
            users: self.users.deep_view(),
            exclude: self.exclude.deep_view(),
            date: self.date@,
            date_sign: self.date_sign@,
            config_path: self.config_path@,
            output_path: self.output_path@,
            context: self.context,
            comment_body: self.comment_body@,
            dedupe: self.dedupe,
        }
    }
}

/// A date-range separator starts at `j`.
pub open spec fn is_range_sep_at(s: Seq<char>, j: int) -> bool {
    j + 2 <= s.len() && s[j] == '.' && s[j + 1] == '.'
}

/// The first date-range separator at or after `i`, or the end of the text.
pub open spec fn find_range_sep_from(s: Seq<char>, i: int) -> int
    decreases s.len() - i when 0 <= i <= s.len()
{
    if i + 2 > s.len() {
        s.len() as int
    } else if is_range_sep_at(s, i) {
        i
    } else {
        find_range_sep_from(s, i + 1)
    }
}

pub proof fn lemma_find_range_sep_from_bounds(s: Seq<char>, i: int)
    requires
        0 <= i <= s.len(),
    ensures
        i <= find_range_sep_from(s, i) <= s.len(),
        find_range_sep_from(s, i) < s.len() ==> is_range_sep_at(s, find_range_sep_from(s, i)),
    decreases s.len() - i,
{
    if i + 2 > s.len() {
    } else if is_range_sep_at(s, i) {
    } else {
        lemma_find_range_sep_from_bounds(s, i + 1);
    }
}

/// The name of the markdown file a run writes: the output path, then the
/// date — for a date range, its second component — then the extension.
pub open spec fn file_name_model(date: Seq<char>, output_path: Seq<char>) -> Seq<char> {
    let d1 = find_range_sep_from(date, 0);
    let base = if d1 >= date.len() {
        date
    } else {
        date.subrange(d1 + 2, find_range_sep_from(date, d1 + 2))
    };
    output_path + base + ".md"@
}

fn find_range_sep(s: &str, i: usize, n: usize) -> (r: usize)
    requires
        n == s@.len(),
        i <= n,
    ensures
        r == find_range_sep_from(s@, i as int),
        i <= r <= n,
{
    let mut j = i;
    while n - j >= 2
        invariant
            i <= j <= n,
            n == s@.len(),
            find_range_sep_from(s@, i as int) == find_range_sep_from(s@, j as int),
        decreases n - j,
    {
        if s.get_char(j) == '.' && s.get_char(j + 1) == '.' {
            proof {
                assert(find_range_sep_from(s@, j as int) == j as int);
            }
            return j;
        }
        proof {
            assert(find_range_sep_from(s@, j as int) == find_range_sep_from(s@, j as int + 1));
        }
        j = j + 1;
    }
    proof {
        assert(find_range_sep_from(s@, j as int) == n as int);
    }
    n
}

impl AppParams {
    /// The markdown file name of this run.
    pub fn file_name(&self) -> (r: String)
        ensures
            r@ == file_name_model(self.date@, self.output_path@),
    {
        let s = self.date.as_str();
        let n = s.unicode_len();
        let d1 = find_range_sep(s, 0, n);
        let mut result = self.output_path.clone();
        if d1 >= n {
            result.append(self.date.as_str());
        } else {
            proof {
                lemma_find_range_sep_from_bounds(s@, 0);
            }
            let d2 = find_range_sep(s, d1 + 2, n);
            result.append(s.substring_char(d1 + 2, d2));
        }
        result.append(".md");
        result
    }
}

/// What the run parameters are, given the processed arguments, the loaded
/// configuration (or none, when loading failed), and the already-resolved
/// default date range.
pub open spec fn resolve_model(
    a: ArgsModel,
    c: Option<ConfigModel>,
    default_date: Seq<char>,
) -> ParamsModel {
    match c {
        Some(fc) => ParamsModel {
            labels: fc.labels,
            header: fc.header,
            exclude: fc.exclude,
            users: fc.users,
            exclude_closed_not_merged: fc.exclude_closed_not_merged,
            date: if a.date.len() > 0 {
                a.date
            } else if a.edit {
                fc.last_date
            } else {
                default_date
            },
            date_sign: a.date_sign,
            config_path: a.config_path,
            output_path: fc.output_path,
            context: a.context,
            comment_body: a.comment_body,
            query_type: fc.query_type,
            dedupe: a.dedupe,
        },
        None => ParamsModel {
            labels: Seq::empty(),
            header: Seq::empty(),
            exclude: Seq::empty(),
            users: a.users,
            exclude_closed_not_merged: false,
            date: if a.date.len() == 0 {
                default_date
            } else {
                a.date
            },
            date_sign: a.date_sign,
            config_path: a.config_path,
            output_path: Seq::empty(),
            context: a.context,
            comment_body: Seq::empty(),
            query_type: PullRequestQueryType::Created,
            dedupe: a.dedupe,
        },
    }
}

/// Builds the run parameters from the processed arguments, the loaded
/// configuration, if any, and the already-resolved default date range.
/// When a configuration is present its fields carry over and the date
/// falls back to the stored cursor (in edit mode) or the default range;
/// without one the parameters keep their defaults and the comment body is
/// cleared.
pub fn resolve_app_params(
    args: Args,
    file_config: Option<&FileConfig>,
    default_date: String,
) -> (r: AppParams)
    ensures
        r@ == resolve_model(
            args@,
            match file_config {
                Some(fc) => Some(fc@),
                None => None,
            },
            default_date@,
        ),
{
    match file_config {
        Some(fc) => {
            let date = if !args.date.as_str().is_empty() {
                args.date
            } else if args.edit {
                fc.last_date.clone()
            } else {
                default_date
            };
            let r = AppParams {
                labels: crate::config::clone_labels(&fc.labels),
                header: crate::config::clone_string_vec(&fc.header),
                exclude: crate::config::clone_string_vec(&fc.exclude),
                users: crate::config::clone_string_vec(&fc.users),
                exclude_closed_not_merged: fc.exclude_closed_not_merged,
                date,
                date_sign: args.date_sign,
                config_path: args.config_path,
                output_path: fc.output_path.clone(),
                context: args.context,
                comment_body: args.comment_body,
                query_type: fc.query_type,
                dedupe: args.dedupe,
            };
            proof {
                assert(r@ =~= resolve_model(args@, Some(fc@), default_date@));
            }
            r
        },
        None => {
            let date = if args.date.as_str().is_empty() {
                default_date
            } else {
                args.date
            };
            let r = AppParams {
                labels: Vec::new(),
                header: Vec::new(),
                exclude: Vec::new(),
                exclude_closed_not_merged: false,
                users: args.users,
                date,
                date_sign: args.date_sign,
                config_path: args.config_path,
                output_path: String::new(),
                context: args.context,
                comment_body: String::new(),
                query_type: PullRequestQueryType::Created,
                dedupe: args.dedupe,
            };
            proof {
                assert(r.labels.deep_view() =~= Seq::<LabelModel>::empty());
                assert(r.header.deep_view() =~= Seq::<Seq<char>>::empty());
                assert(r.exclude.deep_view() =~= Seq::<Seq<char>>::empty());
                assert(r@ =~= resolve_model(args@, None, default_date@));
            }
            r
        },
    }
}

} // verus!
