//! Review-comment directives: a free-form comment is scanned for directive
//! keywords and turned into a structured set of directives.

use vstd::prelude::*;

use crate::chars::{
    find_char, find_char_from, is_word_char, is_ws_char, lemma_find_char_from_is,
    lemma_line_end_from_bounds, lemma_skip_ws_from_bounds, lemma_skip_ws_from_is,
    lemma_word_end_from_bounds, line_end, line_end_from, skip_ws, skip_ws_from, str_eq, trimmed,
    trimmed_string, word_char, word_end, word_end_from, ws_char,
};
use crate::config::{
    first_label_index, has_label, lemma_first_index_is, lemma_first_label_index, LabelConfig,
    LabelModel,
};

verus! {

/// A raw review comment, as handed over by the caller.
pub struct TwiosComment {
    pub body: String,
}

/// The directives extracted from one comment: per-label repository
/// assignments, exclusions, and optional date and path values.
#[derive(Debug, PartialEq)]
pub struct TwiosCommentOutput {
    pub labels: Vec<LabelConfig>,
    pub excluded: Vec<String>,
    pub date: String,
    pub file_path: String,
}

/// Mathematical model of a directive set.
#[verifier::ext_equal]
pub ghost struct CommentModel {
    pub labels: Seq<LabelModel>,
    pub excluded: Seq<Seq<char>>,
    pub date: Seq<char>,
    pub file_path: Seq<char>,
}

impl View for TwiosCommentOutput {
    type V = CommentModel;

    open spec fn view(&self) -> CommentModel {
        CommentModel {
            labels: self.labels.deep_view(),
            excluded: self.excluded.deep_view(),
            date: self.date@,
            file_path: self.file_path@,
        }
    }
}

/// The all-default directive set: no labels, no exclusions, empty date and
/// path.
pub open spec fn empty_comment_model() -> CommentModel {
    CommentModel {
        labels: Seq::empty(),
        excluded: Seq::empty(),
        date: Seq::empty(),
        file_path: Seq::empty(),
    }
}

impl TwiosCommentOutput {
    pub fn new() -> (r: Self)
        ensures
            r@ == empty_comment_model(),
    {
        let r = TwiosCommentOutput {
            labels: Vec::new(),
            excluded: Vec::new(),
            date: String::new(),
            file_path: String::new(),
        };
        proof {
            assert(r.labels.deep_view() =~= Seq::<LabelModel>::empty());
            assert(r.excluded.deep_view() =~= Seq::<Seq<char>>::empty());
        }
        r
    }
}

impl Default for TwiosCommentOutput {
    fn default() -> (r: Self)
        ensures
            r@ == empty_comment_model(),
    {
        TwiosCommentOutput::new()
    }
}

// ------------------------------------------------------------------------
// The directive grammar.
//
// A comment is scanned left to right for directive keywords: an occurrence
// of `TWIOS_` followed by at least one word character, the keyword extending
// over the whole word run.  A keyword followed by whitespace opens a block;
// one followed by anything else is ignored.  A block consists either of one
// or more bullet segments — whitespace, `-`, whitespace, `[`, then the rest
// of that line — or, when no bullet follows, of the remainder of the first
// line of free text after the keyword.  Scanning resumes after the block, so
// text consumed by a block is never re-read for keywords.
//
// The path and date keywords record the block's text, trimmed.  The
// unlabelled-items keyword interprets each bullet segment:
// `[<repository>] <label> <trailing>`, where the label is a run of word
// characters separated by single whitespace characters and everything after
// it (such as a user mention) is ignored.  A label equal to the reserved
// exclusion token excludes the repository; the reserved unknown token drops
// the line; any other label files the repository under that label.  Any
// other keyword is recognised but has no effect, and malformed bullet lines
// are skipped without stopping the scan.
//
// Exclusion takes precedence: once every directive is applied, a repository
// tagged with the exclusion token anywhere in the text is removed from
// every label's repository list, whatever other labels the text gave it.
//
// Word characters are deliberately the ASCII letters, digits and
// underscore: keywords, reserved tokens and the label names this grammar is
// used with are ASCII identifiers.  Whitespace is the full Unicode
// white-space set.
// ------------------------------------------------------------------------
/// The keyword prefix.
pub open spec fn kw_prefix() -> Seq<char> {
    seq!['T', 'W', 'I', 'O', 'S', '_']
}

/// The keyword that sets the output file path.
pub open spec fn path_keyword() -> Seq<char> {
    seq!['T', 'W', 'I', 'O', 'S', '_', 'P', 'A', 'T', 'H']
}

/// The keyword that sets the date directive.
pub open spec fn date_keyword() -> Seq<char> {
    seq!['T', 'W', 'I', 'O', 'S', '_', 'D', 'A', 'T', 'E']
}

/// The keyword that opens the block of per-repository bullet lines.
pub open spec fn unlabelled_keyword() -> Seq<char> {
    seq!['T', 'W', 'I', 'O', 'S', '_', 'U', 'N', 'L', 'A', 'B', 'E', 'L', 'L', 'E', 'D']
}

/// The reserved label that excludes a repository.
pub open spec fn excluded_token() -> Seq<char> {
    seq!['E', 'X', 'C', 'L', 'U', 'D', 'E', 'D']
}

/// The reserved label that drops a line entirely.
pub open spec fn unknown_token() -> Seq<char> {
    seq!['U', 'N', 'K', 'N', 'O', 'W', 'N']
}

/// One structured instruction recovered from the comment text.
#[verifier::ext_equal]
pub ghost enum Directive {
    Path(Seq<char>),
    Date(Seq<char>),
    Bullet { repo: Seq<char>, label: Seq<char> },
}

/// A keyword starts at `j`: the prefix followed by at least one word
/// character.
pub open spec fn is_keyword_at(s: Seq<char>, j: int) -> bool {
    j + 7 <= s.len() && s.subrange(j, j + 6) == kw_prefix() && is_word_char(s[j + 6])
}

/// The first keyword start at or after `i`, or the end of the text.
pub open spec fn find_keyword_from(s: Seq<char>, i: int) -> int
    decreases s.len() - i when 0 <= i <= s.len()
{
    if i + 7 > s.len() {
        s.len() as int
    } else if is_keyword_at(s, i) {
        i
    } else {
        find_keyword_from(s, i + 1)
    }
}

pub proof fn lemma_find_keyword_from_bounds(s: Seq<char>, i: int)
    requires
        0 <= i <= s.len(),
    ensures
        i <= find_keyword_from(s, i) <= s.len(),
        find_keyword_from(s, i) < s.len() ==> is_keyword_at(s, find_keyword_from(s, i)),
    decreases s.len() - i,
{
    if i + 7 > s.len() {
    } else if is_keyword_at(s, i) {
    } else {
        lemma_find_keyword_from_bounds(s, i + 1);
    }
}

/// A bullet segment starts at `p`: whitespace, a dash, whitespace, then an
/// opening bracket.
pub open spec fn bullet_at(s: Seq<char>, p: int) -> bool {
    let q = skip_ws_from(s, p);
    q > p && q < s.len() && s[q] == '-' && {
        let r = skip_ws_from(s, q + 1);
        r > q + 1 && r < s.len() && s[r] == '['
    }
}

/// The position of the opening bracket of the bullet segment at `p`.
pub open spec fn bullet_open(s: Seq<char>, p: int) -> int {
    skip_ws_from(s, skip_ws_from(s, p) + 1)
}

/// The end of the run of bullet segments starting at `p`.
pub open spec fn bullets_end_from(s: Seq<char>, p: int) -> int
    decreases s.len() - p when 0 <= p <= s.len()
{
    if bullet_at(s, p) {
        let r = bullet_open(s, p);
        let eol = line_end_from(s, r);
        proof {
            lemma_skip_ws_from_bounds(s, p);
            lemma_skip_ws_from_bounds(s, skip_ws_from(s, p) + 1);
            lemma_line_end_from_bounds(s, r);
        }
        bullets_end_from(s, eol)
    } else {
        p
    }
}

pub proof fn lemma_bullets_end_from_bounds(s: Seq<char>, p: int)
    requires
        0 <= p <= s.len(),
    ensures
        p <= bullets_end_from(s, p) <= s.len(),
        bullet_at(s, p) ==> bullets_end_from(s, p) > p,
    decreases s.len() - p,
{
    if bullet_at(s, p) {
        let r = bullet_open(s, p);
        lemma_skip_ws_from_bounds(s, p);
        lemma_skip_ws_from_bounds(s, skip_ws_from(s, p) + 1);
        lemma_line_end_from_bounds(s, r);
        let eol = line_end_from(s, r);
        lemma_bullets_end_from_bounds(s, eol);
    }
}

/// The end of the label starting at `i`: word characters, possibly
/// separated by single whitespace characters.
pub open spec fn label_end_from(line: Seq<char>, i: int) -> int
    decreases line.len() - i when 0 <= i <= line.len()
{
    if i < line.len() && is_word_char(line[i]) {
        label_end_from(line, i + 1)
    } else if i + 1 < line.len() && is_ws_char(line[i]) && is_word_char(line[i + 1]) {
        label_end_from(line, i + 1)
    } else {
        i
    }
}

/// Parses one bullet line into repository and label, or nothing when the
/// line does not fit the bullet grammar.
pub open spec fn parse_bullet_line(line: Seq<char>) -> Option<(Seq<char>, Seq<char>)> {
    if line.len() == 0 || line[0] != '[' {
        None
    } else {
        let cb = find_char_from(line, 1, ']');
        if cb >= line.len() {
            None
        } else {
            let repo = line.subrange(1, cb);
            if cb + 1 < line.len() && is_ws_char(line[cb + 1]) {
                let l0 = skip_ws_from(line, cb + 1);
                if l0 < line.len() && is_word_char(line[l0]) {
                    Some((repo, line.subrange(l0, label_end_from(line, l0))))
                } else {
                    None
                }
            } else {
                None
            }
        }
    }
}

/// The directives of one bullet line: one bullet, or none.
pub open spec fn line_directives(line: Seq<char>) -> Seq<Directive> {
    match parse_bullet_line(line) {
        Some(pair) => seq![Directive::Bullet { repo: pair.0, label: pair.1 }],
        None => Seq::empty(),
    }
}

/// The directives of the run of bullet segments starting at `p`.
pub open spec fn bullet_directives(s: Seq<char>, p: int) -> Seq<Directive>
    decreases s.len() - p when 0 <= p <= s.len()
{
    if bullet_at(s, p) {
        let r = bullet_open(s, p);
        let eol = line_end_from(s, r);
        proof {
            lemma_skip_ws_from_bounds(s, p);
            lemma_skip_ws_from_bounds(s, skip_ws_from(s, p) + 1);
            lemma_line_end_from_bounds(s, r);
        }
        line_directives(s.subrange(r, eol)) + bullet_directives(s, eol)
    } else {
        Seq::empty()
    }
}

/// The directives of a keyword block made of bullet segments.
pub open spec fn block_directives(kw: Seq<char>, s: Seq<char>, start: int, end: int) -> Seq<
    Directive,
> {
    if kw == unlabelled_keyword() {
        bullet_directives(s, start)
    } else if kw == path_keyword() {
        seq![Directive::Path(trimmed(s.subrange(start, end)))]
    } else if kw == date_keyword() {
        seq![Directive::Date(trimmed(s.subrange(start, end)))]
    } else {
        Seq::empty()
    }
}

/// The directives of a keyword block made of one line of free text.
pub open spec fn line_block_directives(kw: Seq<char>, value: Seq<char>) -> Seq<Directive> {
    if kw == path_keyword() {
        seq![Directive::Path(value)]
    } else if kw == date_keyword() {
        seq![Directive::Date(value)]
    } else {
        Seq::empty()
    }
}

/// All directives of the text from position `i` on.
pub open spec fn scan_directives_from(s: Seq<char>, i: int) -> Seq<Directive>
    decreases s.len() - i when 0 <= i <= s.len()
{
    let j = find_keyword_from(s, i);
    if j >= s.len() {
        Seq::empty()
    } else {
        let e = word_end_from(s, j + 6);
        proof {
            lemma_find_keyword_from_bounds(s, i);
            lemma_word_end_from_bounds(s, j + 6);
        }
        if e < s.len() && is_ws_char(s[e]) {
            let kw = s.subrange(j, e);
            if bullet_at(s, e) {
                let bend = bullets_end_from(s, e);
                proof {
                    lemma_bullets_end_from_bounds(s, e);
                }
                block_directives(kw, s, e, bend) + scan_directives_from(s, bend)
            } else {
                let q = skip_ws_from(s, e);
                let eol = line_end_from(s, q);
                proof {
                    lemma_skip_ws_from_bounds(s, e);
                    lemma_line_end_from_bounds(s, q);
                }
                line_block_directives(kw, trimmed(s.subrange(q, eol))) + scan_directives_from(
                    s,
                    eol,
                )
            }
        } else {
            scan_directives_from(s, e)
        }
    }
}

/// All directives of a comment text.
pub open spec fn comment_directives(s: Seq<char>) -> Seq<Directive> {
    scan_directives_from(s, 0)
}

/// Files `repo` under the first label named `name`, creating the label at
/// the end of the list when it is new.  Repositories are appended as they
/// come, duplicates included: deduplication is a separate concern.
pub open spec fn add_repo_to_labels(
    ls: Seq<LabelModel>,
    name: Seq<char>,
    repo: Seq<char>,
) -> Seq<LabelModel> {
    if has_label(ls, name) {
        let i = first_label_index(ls, name);
        ls.update(i, LabelModel { name: ls[i].name, repos: ls[i].repos.push(repo) })
    } else {
        ls.push(LabelModel { name: name, repos: seq![repo] })
    }
}

/// How one directive changes the directive set under construction.
pub open spec fn apply_directive(m: CommentModel, dv: Directive) -> CommentModel {
    match dv {
        Directive::Path(v) => CommentModel { file_path: v, ..m },
        Directive::Date(v) => CommentModel { date: v, ..m },
        Directive::Bullet { repo, label } => {
            if label == excluded_token() {
                CommentModel { excluded: m.excluded.push(repo), ..m }
            } else if label == unknown_token() {
                m
            } else {
                CommentModel { labels: add_repo_to_labels(m.labels, label, repo), ..m }
            }
        },
    }
}

/// Applies a list of directives in order.
pub open spec fn apply_directives(m: CommentModel, dvs: Seq<Directive>) -> CommentModel
    decreases dvs.len(),
{
    if dvs.len() == 0 {
        m
    } else {
        apply_directives(apply_directive(m, dvs[0]), dvs.drop_first())
    }
}

/// The entries of `rs` that are not listed in `ex`, in order.
pub open spec fn remove_listed(rs: Seq<Seq<char>>, ex: Seq<Seq<char>>) -> Seq<Seq<char>>
    decreases rs.len(),
{
    if rs.len() == 0 {
        Seq::empty()
    } else {
        let prev = remove_listed(rs.drop_last(), ex);
        if ex.contains(rs.last()) {
            prev
        } else {
            prev.push(rs.last())
        }
    }
}

/// Exclusion precedence: strips every excluded repository out of every
/// label's repository list, wherever in the text the tags stood.
pub open spec fn purge_excluded(m: CommentModel) -> CommentModel {
    CommentModel {
        labels: Seq::new(
            m.labels.len(),
            |i: int|
                LabelModel {
                    name: m.labels[i].name,
                    repos: remove_listed(m.labels[i].repos, m.excluded),
                },
        ),
        excluded: m.excluded,
        date: m.date,
        file_path: m.file_path,
    }
}

/// What extraction returns for a comment text: every directive of the text
/// applied, in order, to the all-default directive set, and the excluded
/// repositories then kept out of every label.
pub open spec fn read_model(s: Seq<char>) -> CommentModel {
    purge_excluded(apply_directives(empty_comment_model(), comment_directives(s)))
}

/// Applying a concatenation is applying the parts in turn.
pub proof fn lemma_apply_directives_concat(m: CommentModel, a: Seq<Directive>, b: Seq<Directive>)
    ensures
        apply_directives(m, a + b) == apply_directives(apply_directives(m, a), b),
    decreases a.len(),
{
    if a.len() == 0 {
        assert(a + b =~= b);
    } else {
        assert((a + b)[0] == a[0]);
        assert((a + b).drop_first() =~= a.drop_first() + b);
        lemma_apply_directives_concat(apply_directive(m, a[0]), a.drop_first(), b);
    }
}

/// Applying one directive alone.
proof fn lemma_apply_singleton(m: CommentModel, d: Directive)
    ensures
        apply_directives(m, seq![d]) == apply_directive(m, d),
{
    let one = seq![d];
    assert(one[0] == d);
    assert(one.drop_first() =~= Seq::<Directive>::empty());
    assert(apply_directives(apply_directive(m, d), Seq::<Directive>::empty()) == apply_directive(
        m,
        d,
    ));
    assert(apply_directives(m, one) == apply_directives(apply_directive(m, one[0]), one.drop_first()));
}

// ------------------------------------------------------------------------
// Laws of extraction.
// ------------------------------------------------------------------------
/// Whether some label in `ls` lists `repo`.
pub open spec fn labels_list_repo(ls: Seq<LabelModel>, repo: Seq<char>) -> bool {
    exists|i: int| 0 <= i < ls.len() && ls[i].repos.contains(repo)
}

/// The directive is a bullet that tags `x` with an ordinary label, one that
/// is neither of the reserved tokens.
pub open spec fn tags_repo_with_ordinary_label(dv: Directive, x: Seq<char>) -> bool {
    dv matches Directive::Bullet { repo: r2, label: l2 } && r2 == x && l2 != excluded_token()
        && l2 != unknown_token()
}

/// The directive is a bullet that tags `x` with the reserved exclusion
/// token.
pub open spec fn tags_repo_excluded(dv: Directive, x: Seq<char>) -> bool {
    dv matches Directive::Bullet { repo: r2, label: l2 } && r2 == x && l2 == excluded_token()
}

/// The directive is a bullet that tags `x`, with whatever label.
pub open spec fn tags_repo(dv: Directive, x: Seq<char>) -> bool {
    dv matches Directive::Bullet { repo: r2, label: l2 } && r2 == x
}

proof fn lemma_push_contains(rs: Seq<Seq<char>>, y: Seq<char>, x: Seq<char>)
    ensures
        rs.push(y).contains(x) <==> rs.contains(x) || x == y,
{
    if rs.push(y).contains(x) {
        let k = choose|k: int| 0 <= k < rs.push(y).len() && rs.push(y)[k] == x;
        if k < rs.len() {
            assert(rs[k] == x);
        }
    }
    if rs.contains(x) {
        let k = choose|k: int| 0 <= k < rs.len() && rs[k] == x;
        assert(rs.push(y)[k] == x);
    }
    if x == y {
        assert(rs.push(y)[rs.len() as int] == x);
    }
}

/// One directive adds `x` to some label's list exactly when it is a bullet
/// tagging `x` with an ordinary label.
proof fn lemma_apply_directive_label_membership(m: CommentModel, dv: Directive, x: Seq<char>)
    ensures
        labels_list_repo(apply_directive(m, dv).labels, x) <==> labels_list_repo(m.labels, x)
            || tags_repo_with_ordinary_label(dv, x),
{
    let m1 = apply_directive(m, dv);
    match dv {
        Directive::Path(_v) => {
        },
        Directive::Date(_v) => {
        },
        Directive::Bullet { repo, label } => {
            if label == excluded_token() || label == unknown_token() {
            } else {
                let ls = m.labels;
                let result = add_repo_to_labels(ls, label, repo);
                lemma_first_label_index(ls, label);
                if has_label(ls, label) {
                    let i = first_label_index(ls, label);
                    lemma_push_contains(ls[i].repos, repo, x);
                    if labels_list_repo(result, x) {
                        let k = choose|k: int| 0 <= k < result.len() && result[k].repos.contains(x);
                        if k != i {
                            assert(ls[k].repos.contains(x));
                        }
                    }
                    if labels_list_repo(ls, x) {
                        let k = choose|k: int| 0 <= k < ls.len() && ls[k].repos.contains(x);
                        if k != i {
                            assert(result[k].repos.contains(x));
                        } else {
                            assert(result[i].repos.contains(x));
                        }
                    }
                    if x == repo {
                        assert(result[i].repos.contains(x));
                    }
                } else {
                    if labels_list_repo(result, x) {
                        let k = choose|k: int| 0 <= k < result.len() && result[k].repos.contains(x);
                        if k < ls.len() {
                            assert(ls[k].repos.contains(x));
                        } else {
                            assert(result[k].repos == seq![repo]);
                            assert(seq![repo][0] == repo);
                            let k2 = choose|k2: int|
                                0 <= k2 < seq![repo].len() && seq![repo][k2] == x;
                            assert(x == repo);
                        }
                    }
                    if labels_list_repo(ls, x) {
                        let k = choose|k: int| 0 <= k < ls.len() && ls[k].repos.contains(x);
                        assert(result[k].repos.contains(x));
                    }
                    if x == repo {
                        assert(result[ls.len() as int].repos[0] == x);
                        assert(result[ls.len() as int].repos.contains(x));
                    }
                }
            }
        },
    }
}

/// Across a directive list, `x` ends up under some label exactly when the
/// starting state already listed it or some directive tags it with an
/// ordinary label.
proof fn lemma_apply_directives_label_membership(m: CommentModel, dvs: Seq<Directive>, x: Seq<char>)
    ensures
        labels_list_repo(apply_directives(m, dvs).labels, x) <==> labels_list_repo(m.labels, x)
            || exists|k: int| 0 <= k < dvs.len() && tags_repo_with_ordinary_label(dvs[k], x),
    decreases dvs.len(),
{
    if dvs.len() > 0 {
        let m1 = apply_directive(m, dvs[0]);
        lemma_apply_directive_label_membership(m, dvs[0], x);
        lemma_apply_directives_label_membership(m1, dvs.drop_first(), x);
        let rest = dvs.drop_first();
        assert(forall|k: int| 0 <= k < rest.len() ==> rest[k] == dvs[k + 1]);
        if exists|k: int| 0 <= k < dvs.len() && tags_repo_with_ordinary_label(dvs[k], x) {
            let k = choose|k: int| 0 <= k < dvs.len() && tags_repo_with_ordinary_label(dvs[k], x);
            if k > 0 {
                assert(tags_repo_with_ordinary_label(rest[k - 1], x));
            }
        }
        if exists|k: int| 0 <= k < rest.len() && tags_repo_with_ordinary_label(rest[k], x) {
            let k = choose|k: int| 0 <= k < rest.len() && tags_repo_with_ordinary_label(rest[k], x);
            assert(tags_repo_with_ordinary_label(dvs[k + 1], x));
        }
    }
}

/// Across a directive list, `x` ends up excluded exactly when the starting
/// state already excluded it or some directive tags it `EXCLUDED`.
proof fn lemma_apply_directives_excluded_membership(
    m: CommentModel,
    dvs: Seq<Directive>,
    x: Seq<char>,
)
    ensures
        apply_directives(m, dvs).excluded.contains(x) <==> m.excluded.contains(x) || exists|k: int|
            0 <= k < dvs.len() && tags_repo_excluded(dvs[k], x),
    decreases dvs.len(),
{
    if dvs.len() > 0 {
        let m1 = apply_directive(m, dvs[0]);
        match dvs[0] {
            Directive::Bullet { repo, label } => {
                if label == excluded_token() {
                    lemma_push_contains(m.excluded, repo, x);
                }
            },
            _ => {
            },
        }
        lemma_apply_directives_excluded_membership(m1, dvs.drop_first(), x);
        let rest = dvs.drop_first();
        assert(forall|k: int| 0 <= k < rest.len() ==> rest[k] == dvs[k + 1]);
        if exists|k: int| 0 <= k < dvs.len() && tags_repo_excluded(dvs[k], x) {
            let k = choose|k: int| 0 <= k < dvs.len() && tags_repo_excluded(dvs[k], x);
            if k > 0 {
                assert(tags_repo_excluded(rest[k - 1], x));
            }
        }
        if exists|k: int| 0 <= k < rest.len() && tags_repo_excluded(rest[k], x) {
            let k = choose|k: int| 0 <= k < rest.len() && tags_repo_excluded(rest[k], x);
            assert(tags_repo_excluded(dvs[k + 1], x));
        }
    }
}

/// Membership in `remove_listed`: kept exactly when present and not
/// listed.
proof fn lemma_remove_listed_membership(rs: Seq<Seq<char>>, ex: Seq<Seq<char>>)
    ensures
        forall|x: Seq<char>|
            remove_listed(rs, ex).contains(x) <==> rs.contains(x) && !ex.contains(x),
    decreases rs.len(),
{
    if rs.len() > 0 {
        let prev = remove_listed(rs.drop_last(), ex);
        lemma_remove_listed_membership(rs.drop_last(), ex);
        assert forall|x: Seq<char>| remove_listed(rs, ex).contains(x) implies rs.contains(x)
            && !ex.contains(x) by {
            let k = choose|k: int|
                0 <= k < remove_listed(rs, ex).len() && remove_listed(rs, ex)[k] == x;
            if k < prev.len() {
                assert(prev[k] == x);
                assert(prev.contains(x));
                assert(remove_listed(rs.drop_last(), ex).contains(x) <==> rs.drop_last().contains(
                    x,
                ) && !ex.contains(x));
                let k2 = choose|k2: int|
                    0 <= k2 < rs.drop_last().len() && rs.drop_last()[k2] == x;
                assert(rs[k2] == x);
            } else {
                assert(x == rs.last());
                assert(rs[rs.len() - 1] == x);
            }
        }
        assert forall|x: Seq<char>| rs.contains(x) && !ex.contains(x) implies remove_listed(
            rs,
            ex,
        ).contains(x) by {
            let k = choose|k: int| 0 <= k < rs.len() && rs[k] == x;
            if k < rs.len() - 1 {
                assert(rs.drop_last()[k] == x);
                assert(rs.drop_last().contains(x));
                assert(remove_listed(rs.drop_last(), ex).contains(x) <==> rs.drop_last().contains(
                    x,
                ) && !ex.contains(x));
                assert(prev.contains(x));
                let k2 = choose|k2: int| 0 <= k2 < prev.len() && prev[k2] == x;
                assert(remove_listed(rs, ex)[k2] == x);
            } else {
                assert(x == rs.last());
                assert(remove_listed(rs, ex).last() == x);
            }
        }
    }
}

/// The exclusion pass keeps a repository under a label exactly when it was
/// there and is not excluded; it touches nothing else.
proof fn lemma_purge_label_membership(m: CommentModel, x: Seq<char>)
    ensures
        labels_list_repo(purge_excluded(m).labels, x) <==> labels_list_repo(m.labels, x)
            && !m.excluded.contains(x),
{
    let pm = purge_excluded(m);
    if labels_list_repo(pm.labels, x) {
        let i = choose|i: int| 0 <= i < pm.labels.len() && pm.labels[i].repos.contains(x);
        lemma_remove_listed_membership(m.labels[i].repos, m.excluded);
        assert(m.labels[i].repos.contains(x));
    }
    if labels_list_repo(m.labels, x) && !m.excluded.contains(x) {
        let i = choose|i: int| 0 <= i < m.labels.len() && m.labels[i].repos.contains(x);
        lemma_remove_listed_membership(m.labels[i].repos, m.excluded);
        assert(pm.labels[i].repos.contains(x));
    }
}

/// A repository appears under some label of the extracted directive set
/// exactly when some bullet line of the text tags it with an ordinary
/// label and no bullet line tags it `EXCLUDED`.
pub proof fn lemma_extraction_label_membership(text: Seq<char>, x: Seq<char>)
    ensures
        labels_list_repo(read_model(text).labels, x) <==> (exists|k: int|
            0 <= k < comment_directives(text).len() && tags_repo_with_ordinary_label(
                comment_directives(text)[k],
                x,
            )) && !(exists|k: int|
            0 <= k < comment_directives(text).len() && tags_repo_excluded(
                comment_directives(text)[k],
                x,
            )),
{
    let m0 = apply_directives(empty_comment_model(), comment_directives(text));
    lemma_apply_directives_label_membership(empty_comment_model(), comment_directives(text), x);
    lemma_apply_directives_excluded_membership(empty_comment_model(), comment_directives(text), x);
    lemma_purge_label_membership(m0, x);
}

/// A repository appears in the extracted exclusion list exactly when some
/// bullet line of the text tags it `EXCLUDED`.
pub proof fn lemma_extraction_excluded_membership(text: Seq<char>, x: Seq<char>)
    ensures
        read_model(text).excluded.contains(x) <==> exists|k: int|
            0 <= k < comment_directives(text).len() && tags_repo_excluded(
                comment_directives(text)[k],
                x,
            ),
{
    lemma_apply_directives_excluded_membership(empty_comment_model(), comment_directives(text), x);
}

/// Exclusion precedence: a repository the extracted set excludes appears
/// under none of its labels — however the same text labels it elsewhere,
/// and in whatever order the bullets stand.
pub proof fn lemma_exclusion_precedence(text: Seq<char>, x: Seq<char>)
    ensures
        read_model(text).excluded.contains(x) ==> !labels_list_repo(read_model(text).labels, x),
{
    lemma_extraction_label_membership(text, x);
    lemma_extraction_excluded_membership(text, x);
}

/// Unknown suppression: a repository whose every tag in the text is the
/// reserved unknown token appears neither under any label nor in the
/// exclusion list of the extracted set.
pub proof fn lemma_unknown_suppressed(text: Seq<char>, x: Seq<char>)
    requires
        forall|k: int|
            0 <= k < comment_directives(text).len() ==> (tags_repo(comment_directives(text)[k], x)
                ==> (comment_directives(text)[k] matches Directive::Bullet { repo: r2, label: l2 }
                && l2 == unknown_token())),
    ensures
        !labels_list_repo(read_model(text).labels, x),
        !read_model(text).excluded.contains(x),
{
    lemma_extraction_label_membership(text, x);
    lemma_extraction_excluded_membership(text, x);
    let dvs = comment_directives(text);
    assert forall|k: int| 0 <= k < dvs.len() implies !tags_repo_with_ordinary_label(dvs[k], x)
        && !tags_repo_excluded(dvs[k], x) by {
        if tags_repo_with_ordinary_label(dvs[k], x) || tags_repo_excluded(dvs[k], x) {
            assert(tags_repo(dvs[k], x));
        }
    }
}

/// `l` is a label text: word characters, possibly separated by single
/// whitespace characters, beginning and ending with a word character.
pub open spec fn is_label_text(l: Seq<char>) -> bool {
    l.len() > 0 && is_word_char(l[0]) && forall|i: int| #![trigger l[i]]
        0 <= i < l.len() ==> is_word_char(l[i]) || (i + 1 < l.len() && is_ws_char(l[i])
            && is_word_char(l[i + 1]))
}

/// Pins `label_end_from` down: a label text standing at `p` up to `e`,
/// followed by something no label continues over, ends the scan at exactly
/// `e`.
proof fn lemma_label_end_from_is(line: Seq<char>, p: int, e: int)
    requires
        0 <= p <= e <= line.len(),
        forall|j: int| #![trigger line[j]]
            p <= j < e ==> is_word_char(line[j]) || (j + 1 < e && is_ws_char(line[j])
                && is_word_char(line[j + 1])),
        e == line.len() || (!is_word_char(line[e]) && !(is_ws_char(line[e]) && e + 1 < line.len()
            && is_word_char(line[e + 1]))),
    ensures
        label_end_from(line, p) == e,
    decreases e - p,
{
    if p < e {
        assert(is_word_char(line[p]) || (p + 1 < e && is_ws_char(line[p]) && is_word_char(
            line[p + 1],
        )));
        lemma_label_end_from_is(line, p + 1, e);
    }
}

/// One bullet line of the grammar parses to exactly its repository and its
/// label: a label made of word runs with single internal separators is
/// taken whole — neither split into several labels nor truncated at its
/// first space — and the trailing text, such as a user mention, is
/// dropped.
pub proof fn lemma_bullet_line_parses(repo: Seq<char>, label: Seq<char>, trailing: Seq<char>)
    requires
        !repo.contains(']'),
        is_label_text(label),
        trailing.len() == 0 || (is_ws_char(trailing[0]) && (trailing.len() == 1
            || !is_word_char(trailing[1]))),
    ensures
        parse_bullet_line(seq!['['] + repo + seq![']', ' '] + label + trailing) == Some(
            (repo, label),
        ),
{
    let line = seq!['['] + repo + seq![']', ' '] + label + trailing;
    let cb = 1 + repo.len() as int;
    let l0 = cb + 2;
    assert(line.len() == 3 + repo.len() + label.len() + trailing.len());
    assert(line[0] == '[');
    assert(forall|j: int| 0 <= j < repo.len() ==> line[1 + j] == repo[j]);
    assert(line[cb] == ']');
    assert(line[cb + 1] == ' ');
    assert(forall|j: int| 0 <= j < label.len() ==> line[l0 + j] == label[j]);
    assert(forall|j: int| 0 <= j < trailing.len() ==> line[l0 + label.len() + j] == trailing[j]);
    assert forall|j: int| 1 <= j < cb implies line[j] != ']' by {
        if line[j] == ']' {
            assert(repo[j - 1] == ']');
            assert(repo.contains(']'));
        }
    }
    lemma_find_char_from_is(line, 1, ']', cb);
    assert(line.subrange(1, cb) =~= repo);
    assert(!is_ws_char(label[0]));
    lemma_skip_ws_from_is(line, cb + 1, l0);
    let e = l0 + label.len() as int;
    assert forall|j: int| #![trigger line[j]] l0 <= j < e implies is_word_char(line[j]) || (j + 1
        < e && is_ws_char(line[j]) && is_word_char(line[j + 1])) by {
        let i = j - l0;
        assert(line[j] == label[i]);
        assert(is_word_char(label[i]) || (i + 1 < label.len() && is_ws_char(label[i])
            && is_word_char(label[i + 1])));
        if !is_word_char(label[i]) {
            assert(line[j + 1] == label[i + 1]);
        }
    }
    lemma_label_end_from_is(line, l0, e);
    assert(line.subrange(l0, e) =~= label);
}

// ------------------------------------------------------------------------
// The executable scanner.
// ------------------------------------------------------------------------
/// Whether a keyword starts at position `j`.
fn keyword_at(s: &str, j: usize, n: usize) -> (r: bool)
    requires
        n == s@.len(),
        j + 7 <= n,
    ensures
        r == is_keyword_at(s@, j as int),
{
    let r = s.get_char(j) == 'T' && s.get_char(j + 1) == 'W' && s.get_char(j + 2) == 'I'
        && s.get_char(j + 3) == 'O' && s.get_char(j + 4) == 'S' && s.get_char(j + 5) == '_'
        && word_char(s.get_char(j + 6));
    proof {
        let ghost sub = s@.subrange(j as int, j as int + 6);
        assert(forall|k: int| 0 <= k < 6 ==> sub[k] == s@[j + k]);
        if r {
            assert(sub =~= kw_prefix());
        } else {
            if is_keyword_at(s@, j as int) {
                assert(s@[j as int] == 'T' && s@[j + 1] == 'W' && s@[j + 2] == 'I' && s@[j + 3]
                    == 'O' && s@[j + 4] == 'S' && s@[j + 5] == '_') by {
                    assert(sub == kw_prefix());
                    assert(sub[0] == 'T' && sub[1] == 'W' && sub[2] == 'I' && sub[3] == 'O'
                        && sub[4] == 'S' && sub[5] == '_');
                }
                assert(false);
            }
        }
    }
    r
}

/// The first keyword start at or after `i`.
fn find_keyword(s: &str, i: usize, n: usize) -> (r: usize)
    requires
        n == s@.len(),
        i <= n,
    ensures
        r == find_keyword_from(s@, i as int),
        i <= r <= n,
{
    let mut j = i;
    while n - j >= 7
        invariant
            i <= j <= n,
            n == s@.len(),
            find_keyword_from(s@, i as int) == find_keyword_from(s@, j as int),
        decreases n - j,
    {
        if keyword_at(s, j, n) {
            proof {
                assert(find_keyword_from(s@, j as int) == j as int);
            }
            return j;
        }
        proof {
            assert(find_keyword_from(s@, j as int) == find_keyword_from(s@, j as int + 1));
        }
        j = j + 1;
    }
    proof {
        assert(find_keyword_from(s@, j as int) == n as int);
    }
    n
}

/// Whether a bullet segment starts at `p`.
fn bullet_start(s: &str, p: usize, n: usize) -> (r: bool)
    requires
        n == s@.len(),
        p <= n,
    ensures
        r == bullet_at(s@, p as int),
{
    let q = skip_ws(s, p, n);
    if q > p && q < n && s.get_char(q) == '-' {
        let r2 = skip_ws(s, q + 1, n);
        r2 > q + 1 && r2 < n && s.get_char(r2) == '['
    } else {
        false
    }
}

/// The end of the label starting at `i`.
fn label_end(line: &str, i: usize, n: usize) -> (r: usize)
    requires
        n == line@.len(),
        i <= n,
    ensures
        r == label_end_from(line@, i as int),
        i <= r <= n,
{
    let mut j = i;
    while (j < n && word_char(line.get_char(j))) || (j < n && n - j > 1 && ws_char(
        line.get_char(j),
    ) && word_char(line.get_char(j + 1)))
        invariant
            i <= j <= n,
            n == line@.len(),
            label_end_from(line@, i as int) == label_end_from(line@, j as int),
        decreases n - j,
    {
        proof {
            assert(label_end_from(line@, j as int) == label_end_from(line@, j as int + 1));
        }
        j = j + 1;
    }
    j
}

/// Classifies one parsed bullet: exclusion, dropped line, or a labelled
/// repository.
#[verifier::loop_isolation(false)]
fn push_bullet(out: &mut TwiosCommentOutput, repo: String, label: String)
    ensures
        final(out)@ == apply_directive(
            old(out)@,
            Directive::Bullet { repo: repo@, label: label@ },
        ),
{
    let ghost r = repo@;
    let ghost lname = label@;
    proof {
        reveal_strlit("EXCLUDED");
        reveal_strlit("UNKNOWN");
        assert("EXCLUDED"@ =~= excluded_token());
        assert("UNKNOWN"@ =~= unknown_token());
    }
    if str_eq(label.as_str(), "EXCLUDED") {
        let ghost ex0 = out.excluded.deep_view();
        out.excluded.push(repo);
        proof {
            assert(out.excluded.deep_view() =~= ex0.push(r));
            assert(out@ =~= apply_directive(old(out)@, Directive::Bullet { repo: r, label: lname }));
        }
    } else if str_eq(label.as_str(), "UNKNOWN") {
        proof {
            assert(out@ =~= apply_directive(old(out)@, Directive::Bullet { repo: r, label: lname }));
        }
    } else {
        let ghost ls = out.labels.deep_view();
        let mut j: usize = 0;
        let mut found: bool = false;
        while j < out.labels.len() && !found
            invariant
                0 <= j <= out.labels.len(),
                forall|k: int| 0 <= k < j ==> ls[k].name != lname,
                found ==> j < out.labels.len() && ls[j as int].name == lname,
                out.labels.deep_view() == ls,
            decreases out.labels.len() - j + (if found {
                0int
            } else {
                1int
            }),
        {
            proof {
                assert(ls[j as int].name == out.labels@[j as int].name@);
            }
            if out.labels[j].name == label {
                found = true;
            } else {
                j = j + 1;
            }
        }
        if found {
            proof {
                lemma_first_index_is(ls, lname, j as int);
            }
            let mut entry = out.labels.remove(j);
            let ghost entry0 = entry@;
            proof {
                assert(entry0 == ls[j as int]);
            }
            entry.repos.push(repo);
            proof {
                assert(entry.repos.deep_view() =~= entry0.repos.push(r));
            }
            out.labels.insert(j, entry);
            proof {
                assert(out.labels.deep_view() =~= add_repo_to_labels(ls, lname, r));
                assert(out@ =~= apply_directive(
                    old(out)@,
                    Directive::Bullet { repo: r, label: lname },
                ));
            }
        } else {
            proof {
                lemma_first_label_index(ls, lname);
                assert(!has_label(ls, lname));
            }
            out.labels.push(LabelConfig { name: label, repos: vec![repo] });
            proof {
                assert(out.labels@[ls.len() as int].repos@ =~= seq![repo]);
                assert(out.labels@[ls.len() as int]@.repos =~= seq![r]);
                assert(out.labels.deep_view() =~= ls.push(
                    LabelModel { name: lname, repos: seq![r] },
                ));
                assert(out@ =~= apply_directive(
                    old(out)@,
                    Directive::Bullet { repo: r, label: lname },
                ));
            }
        }
    }
}

/// Parses one bullet line and applies its directive, if any.
#[verifier::loop_isolation(false)]
fn apply_bullet_line(out: &mut TwiosCommentOutput, line: &str)
    ensures
        final(out)@ == apply_directives(old(out)@, line_directives(line@)),
{
    let n = line.unicode_len();
    if n == 0 {
        return ;
    }
    if line.get_char(0) != '[' {
        return ;
    }
    let cb = find_char(line, 1, n, ']');
    if cb >= n {
        return ;
    }
    if cb + 1 >= n {
        return ;
    }
    if !ws_char(line.get_char(cb + 1)) {
        return ;
    }
    let l0 = skip_ws(line, cb + 1, n);
    if l0 >= n {
        return ;
    }
    if !word_char(line.get_char(l0)) {
        return ;
    }
    let le = label_end(line, l0, n);
    let repo = String::from_str(line.substring_char(1, cb));
    let label = String::from_str(line.substring_char(l0, le));
    let ghost d = Directive::Bullet { repo: repo@, label: label@ };
    proof {
        assert(parse_bullet_line(line@) == Some((repo@, label@)));
        assert(line_directives(line@) =~= seq![d]);
        lemma_apply_singleton(out@, d);
    }
    push_bullet(out, repo, label);
}

/// The end of the run of bullet segments starting at `p`.
fn bullets_limit(s: &str, p: usize, n: usize) -> (r: usize)
    requires
        n == s@.len(),
        p <= n,
    ensures
        r == bullets_end_from(s@, p as int),
        p <= r <= n,
{
    let mut cur = p;
    while bullet_start(s, cur, n)
        invariant
            p <= cur <= n,
            n == s@.len(),
            bullets_end_from(s@, p as int) == bullets_end_from(s@, cur as int),
        decreases n - cur,
    {
        let q1 = skip_ws(s, cur, n);
        let open = skip_ws(s, q1 + 1, n);
        let eol = line_end(s, open, n);
        proof {
            assert(open as int == bullet_open(s@, cur as int));
            assert(bullets_end_from(s@, cur as int) == bullets_end_from(s@, eol as int));
        }
        cur = eol;
    }
    cur
}

/// Applies every bullet segment of the run starting at `p`, returning the
/// position after the run.
#[verifier::loop_isolation(false)]
fn apply_bullets(out: &mut TwiosCommentOutput, s: &str, p: usize, n: usize) -> (r: usize)
    requires
        n == s@.len(),
        p <= n,
    ensures
        r == bullets_end_from(s@, p as int),
        p <= r <= n,
        final(out)@ == apply_directives(old(out)@, bullet_directives(s@, p as int)),
{
    let mut cur = p;
    while bullet_start(s, cur, n)
        invariant
            p <= cur <= n,
            bullets_end_from(s@, p as int) == bullets_end_from(s@, cur as int),
            apply_directives(old(out)@, bullet_directives(s@, p as int)) == apply_directives(
                out@,
                bullet_directives(s@, cur as int),
            ),
        decreases n - cur,
    {
        let q1 = skip_ws(s, cur, n);
        let open = skip_ws(s, q1 + 1, n);
        let eol = line_end(s, open, n);
        let line = s.substring_char(open, eol);
        let ghost out_pre = out@;
        proof {
            assert(open as int == bullet_open(s@, cur as int));
            assert(bullet_directives(s@, cur as int) == line_directives(line@)
                + bullet_directives(s@, eol as int));
            lemma_apply_directives_concat(
                out_pre,
                line_directives(line@),
                bullet_directives(s@, eol as int),
            );
        }
        apply_bullet_line(out, line);
        cur = eol;
    }
    proof {
        assert(bullet_directives(s@, cur as int) =~= Seq::<Directive>::empty());
    }
    cur
}

/// Copies the entries of `v` that are not listed in `ex`, in order.
#[verifier::loop_isolation(false)]
fn remove_listed_strings(v: &Vec<String>, ex: &Vec<String>) -> (r: Vec<String>)
    ensures
        r.deep_view() == remove_listed(v.deep_view(), ex.deep_view()),
{
    let ghost dv = v.deep_view();
    let ghost exv = ex.deep_view();
    let mut r: Vec<String> = Vec::new();
    proof {
        assert(dv.subrange(0, 0) =~= Seq::<Seq<char>>::empty());
        assert(r.deep_view() =~= remove_listed(dv.subrange(0, 0), exv));
    }
    let mut i: usize = 0;
    while i < v.len()
        invariant
            0 <= i <= v.len(),
            r.deep_view() == remove_listed(dv.subrange(0, i as int), exv),
        decreases v.len() - i,
    {
        let ghost r0 = r.deep_view();
        proof {
            assert(dv.subrange(0, i + 1 as int).drop_last() =~= dv.subrange(0, i as int));
            assert(dv.subrange(0, i + 1 as int).last() == dv[i as int]);
            assert(dv[i as int] == v@[i as int]@);
        }
        if !crate::config::contains_string(ex, &v[i]) {
            r.push(v[i].clone());
            proof {
                assert(r.deep_view() =~= r0.push(dv[i as int]));
            }
        }
        i = i + 1;
    }
    proof {
        assert(dv.subrange(0, dv.len() as int) =~= dv);
    }
    r
}

/// Removes every excluded repository from every label's repository list:
/// the exclusion-precedence pass run after the scan.
#[verifier::loop_isolation(false)]
fn apply_exclusions(out: &mut TwiosCommentOutput)
    ensures
        final(out)@ == purge_excluded(old(out)@),
{
    let ghost m0 = out@;
    let mut i: usize = 0;
    while i < out.labels.len()
        invariant
            0 <= i <= out.labels.len(),
            out.labels.len() == m0.labels.len(),
            forall|j: int|
                0 <= j < i ==> out.labels.deep_view()[j] == (LabelModel {
                    name: m0.labels[j].name,
                    repos: remove_listed(m0.labels[j].repos, m0.excluded),
                }),
            forall|j: int|
                i <= j < m0.labels.len() ==> out.labels.deep_view()[j] == m0.labels[j],
            out.excluded == old(out).excluded,
            out.date == old(out).date,
            out.file_path == old(out).file_path,
        decreases out.labels.len() - i,
    {
        let ghost labels_cur = out.labels.deep_view();
        let mut entry = out.labels.remove(i);
        proof {
            assert(entry@ == labels_cur[i as int]);
        }
        let filtered = remove_listed_strings(&entry.repos, &out.excluded);
        entry.repos = filtered;
        let ghost entry_after = entry@;
        out.labels.insert(i, entry);
        proof {
            assert(out.labels.deep_view() =~= labels_cur.update(i as int, entry_after));
            assert(entry_after == (LabelModel {
                name: m0.labels[i as int].name,
                repos: remove_listed(m0.labels[i as int].repos, m0.excluded),
            }));
        }
        i = i + 1;
    }
    proof {
        assert(out@ =~= purge_excluded(m0)) by {
            assert(out.labels.deep_view() =~= purge_excluded(m0).labels);
        }
    }
}

impl TwiosComment {
    /// Extracts the directives of the comment body.  This never fails:
    /// malformed or absent directives leave the corresponding field at its
    /// default.  Exclusion takes precedence: an excluded repository stands
    /// in no label's repository list of the result.
    #[verifier::loop_isolation(false)]
    pub fn read(&self) -> (out: TwiosCommentOutput)
        ensures
            out@ == read_model(self.body@),
            forall|x: Seq<char>|
                out@.excluded.contains(x) ==> !labels_list_repo(out@.labels, x),
    {
        let s: &str = self.body.as_str();
        let n = s.unicode_len();
        let ghost total = apply_directives(empty_comment_model(), comment_directives(self.body@));
        let mut out = TwiosCommentOutput::new();
        let mut i: usize = 0;
        proof {
            reveal_strlit("TWIOS_UNLABELLED");
            reveal_strlit("TWIOS_PATH");
            reveal_strlit("TWIOS_DATE");
            assert("TWIOS_UNLABELLED"@ =~= unlabelled_keyword());
            assert("TWIOS_PATH"@ =~= path_keyword());
            assert("TWIOS_DATE"@ =~= date_keyword());
        }
        while i < n
            invariant
                0 <= i <= n,
                apply_directives(out@, scan_directives_from(s@, i as int)) == total,
            decreases n - i,
        {
            let j = find_keyword(s, i, n);
            proof {
                lemma_find_keyword_from_bounds(s@, i as int);
            }
            if j >= n {
                proof {
                    assert(scan_directives_from(s@, i as int) =~= Seq::<Directive>::empty());
                }
                i = n;
            } else {
                let e = word_end(s, j + 6, n);
                let ghost dvs_i = scan_directives_from(s@, i as int);
                let ghost kwseq = s@.subrange(j as int, e as int);
                if e < n && ws_char(s.get_char(e)) {
                    let kw = s.substring_char(j, e);
                    let is_unlabelled = str_eq(kw, "TWIOS_UNLABELLED");
                    let is_path = str_eq(kw, "TWIOS_PATH");
                    let is_date = str_eq(kw, "TWIOS_DATE");
                    if bullet_start(s, e, n) {
                        let ghost out_pre = out@;
                        let ghost block = block_directives(
                            kwseq,
                            s@,
                            e as int,
                            bullets_end_from(s@, e as int),
                        );
                        proof {
                            lemma_bullets_end_from_bounds(s@, e as int);
                            assert(dvs_i == block + scan_directives_from(
                                s@,
                                bullets_end_from(s@, e as int),
                            ));
                            lemma_apply_directives_concat(
                                out_pre,
                                block,
                                scan_directives_from(s@, bullets_end_from(s@, e as int)),
                            );
                        }
                        if is_unlabelled {
                            let bend = apply_bullets(&mut out, s, e, n);
                            i = bend;
                        } else {
                            let bend = bullets_limit(s, e, n);
                            if is_path || is_date {
                                let seg = s.substring_char(e, bend);
                                let value = trimmed_string(seg, bend - e);
                                if is_path {
                                    out.file_path = value;
                                } else {
                                    out.date = value;
                                }
                                proof {
                                    lemma_apply_singleton(out_pre, block[0]);
                                    assert(out@ =~= apply_directives(out_pre, block));
                                }
                            } else {
                                proof {
                                    assert(block =~= Seq::<Directive>::empty());
                                }
                            }
                            i = bend;
                        }
                    } else {
                        let q = skip_ws(s, e, n);
                        let eol = line_end(s, q, n);
                        let ghost out_pre = out@;
                        let ghost block = line_block_directives(
                            kwseq,
                            trimmed(s@.subrange(q as int, eol as int)),
                        );
                        proof {
                            assert(dvs_i == block + scan_directives_from(s@, eol as int));
                            lemma_apply_directives_concat(
                                out_pre,
                                block,
                                scan_directives_from(s@, eol as int),
                            );
                        }
                        if is_path || is_date {
                            let seg = s.substring_char(q, eol);
                            let value = trimmed_string(seg, eol - q);
                            if is_path {
                                out.file_path = value;
                            } else {
                                out.date = value;
                            }
                            proof {
                                lemma_apply_singleton(out_pre, block[0]);
                                assert(out@ =~= apply_directives(out_pre, block));
                            }
                        } else {
                            proof {
                                assert(block =~= Seq::<Directive>::empty());
                            }
                        }
                        i = eol;
                    }
                } else {
                    proof {
                        assert(scan_directives_from(s@, i as int) == scan_directives_from(
                            s@,
                            e as int,
                        ));
                    }
                    i = e;
                }
            }
        }
        proof {
            assert(scan_directives_from(s@, i as int) =~= Seq::<Directive>::empty());
        }
        apply_exclusions(&mut out);
        proof {
            assert forall|x: Seq<char>| out@.excluded.contains(x) implies !labels_list_repo(
                out@.labels,
                x,
            ) by {
                lemma_purge_label_membership(total, x);
            }
        }
        out
    }
}

} // verus!
