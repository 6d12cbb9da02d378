//! The persisted label configuration and its reconciliation with a set of
//! directives extracted from a review comment.

use vstd::prelude::*;

use crate::comment::{CommentModel, TwiosCommentOutput};

verus! {

/// One named category: a label together with the repositories assigned to it,
/// in discovery order.
#[derive(Debug, Clone, PartialEq)]
pub struct LabelConfig {
    pub name: String,
    pub repos: Vec<String>,
}

/// Mathematical model of a `LabelConfig`.
#[verifier::ext_equal]
pub ghost struct LabelModel {
    pub name: Seq<char>,
    pub repos: Seq<Seq<char>>,
}

impl View for LabelConfig {
    type V = LabelModel;

    open spec fn view(&self) -> LabelModel {
        LabelModel { name: self.name@, repos: self.repos.deep_view() }
    }
}

impl DeepView for LabelConfig {
    type V = LabelModel;

    open spec fn deep_view(&self) -> LabelModel {
        self.view()
    }
}

/// Which kind of pull-request query a digest run performs.
#[derive(Debug, Clone, Copy, PartialEq, Eq, Structural)]
pub enum PullRequestQueryType {
    Created,
    Merged,
}

impl Default for PullRequestQueryType {
    fn default() -> (r: Self)
        ensures
            r == PullRequestQueryType::Created,
    {
        PullRequestQueryType::Created
    }
}

/// The persisted configuration of a digest.
#[derive(Debug, Clone, PartialEq)]
pub struct FileConfig {
    pub labels: Vec<LabelConfig>,
    pub header: Vec<String>,
    pub users: Vec<String>,
    pub exclude: Vec<String>,
    pub exclude_closed_not_merged: bool,
    pub output_path: String,
    pub last_date: String,
    pub query_type: PullRequestQueryType,
}

/// Mathematical model of a `FileConfig`.
#[verifier::ext_equal]
pub ghost struct ConfigModel {
    pub labels: Seq<LabelModel>,
    pub header: Seq<Seq<char>>,
    pub users: Seq<Seq<char>>,
    pub exclude: Seq<Seq<char>>,
    pub exclude_closed_not_merged: bool,
    pub output_path: Seq<char>,
    pub last_date: Seq<char>,
    pub query_type: PullRequestQueryType,
}

impl View for FileConfig {
    type V = ConfigModel;

    open spec fn view(&self) -> ConfigModel {
        ConfigModel {
            labels: self.labels.deep_view(),
            header: self.header.deep_view(),
            users: self.users.deep_view(),
            exclude: self.exclude.deep_view(),
            exclude_closed_not_merged: self.exclude_closed_not_merged,
            output_path: self.output_path@,
            last_date: self.last_date@,
            query_type: self.query_type,
        }
    }
}

/// Whether some label in `ls` carries the name `name`.
pub open spec fn has_label(ls: Seq<LabelModel>, name: Seq<char>) -> bool
    decreases ls.len(),
{
    ls.len() > 0 && (ls[0].name == name || has_label(ls.drop_first(), name))
}

/// The position of the first label named `name`, or `ls.len()` if there is
/// none.
pub open spec fn first_label_index(ls: Seq<LabelModel>, name: Seq<char>) -> int
    decreases ls.len(),
{
    if ls.len() == 0 {
        0
    } else if ls[0].name == name {
        0
    } else {
        1 + first_label_index(ls.drop_first(), name)
    }
}

pub proof fn lemma_first_label_index(ls: Seq<LabelModel>, name: Seq<char>)
    ensures
        has_label(ls, name) <==> exists|k: int| 0 <= k < ls.len() && ls[k].name == name,
        has_label(ls, name) ==> {
            let i = first_label_index(ls, name);
            &&& 0 <= i < ls.len()
            &&& ls[i].name == name
            &&& forall|j: int| 0 <= j < i ==> ls[j].name != name
        },
        !has_label(ls, name) ==> first_label_index(ls, name) == ls.len(),
    decreases ls.len(),
{
    if ls.len() > 0 {
        let rest = ls.drop_first();
        lemma_first_label_index(rest, name);
        assert(forall|j: int| 0 <= j < rest.len() ==> rest[j] == ls[j + 1]);
        if ls[0].name != name {
            if exists|k: int| 0 <= k < ls.len() && ls[k].name == name {
                let k = choose|k: int| 0 <= k < ls.len() && ls[k].name == name;
                assert(rest[k - 1].name == name);
                assert(rest.contains(rest[k - 1]));
                assert(exists|k2: int| 0 <= k2 < rest.len() && rest[k2].name == name);
            }
            if has_label(rest, name) {
                let i = 1 + first_label_index(rest, name);
                assert forall|j: int| 0 <= j < i implies ls[j].name != name by {
                    if j > 0 {
                        assert(rest[j - 1].name != name);
                    }
                }
            }
        }
    }
}

/// Appends to `rs` each element of `new` that is not already present,
/// checking against the list as it grows.
pub open spec fn add_missing(rs: Seq<Seq<char>>, new: Seq<Seq<char>>) -> Seq<Seq<char>>
    decreases new.len(),
{
    if new.len() == 0 {
        rs
    } else {
        let rs2 = if rs.contains(new[0]) {
            rs
        } else {
            rs.push(new[0])
        };
        add_missing(rs2, new.drop_first())
    }
}

/// Merges one directive label into a label list: appends its repositories to
/// the first label of the same name, or appends the whole label at the end.
pub open spec fn merge_label_into(ls: Seq<LabelModel>, dl: LabelModel) -> Seq<LabelModel> {
    if has_label(ls, dl.name) {
        let i = first_label_index(ls, dl.name);
        ls.update(i, LabelModel { name: ls[i].name, repos: add_missing(ls[i].repos, dl.repos) })
    } else {
        ls.push(dl)
    }
}

/// Merges every directive label, in order, into a label list.
pub open spec fn merge_labels(dls: Seq<LabelModel>, ls: Seq<LabelModel>) -> Seq<LabelModel>
    decreases dls.len(),
{
    if dls.len() == 0 {
        ls
    } else {
        merge_labels(dls.drop_first(), merge_label_into(ls, dls[0]))
    }
}

/// What reconciliation returns: labels and exclusions merged idempotently,
/// the date cursor overwritten, everything else untouched.
pub open spec fn merge_model(d: CommentModel, c: ConfigModel) -> ConfigModel {
    ConfigModel {
        labels: merge_labels(d.labels, c.labels),
        exclude: add_missing(c.exclude, d.excluded),
        last_date: d.date,
        header: c.header,
        users: c.users,
        exclude_closed_not_merged: c.exclude_closed_not_merged,
        output_path: c.output_path,
        query_type: c.query_type,
    }
}

/// Keeps the first occurrence of every element and drops the later ones.
pub open spec fn dedup_seq(s: Seq<Seq<char>>) -> Seq<Seq<char>>
    decreases s.len(),
{
    if s.len() == 0 {
        Seq::empty()
    } else {
        let prev = dedup_seq(s.drop_last());
        if s.drop_last().contains(s.last()) {
            prev
        } else {
            prev.push(s.last())
        }
    }
}

/// What the deduplication pass returns: every label's repository list and the
/// exclusion list reduced to first occurrences.
pub open spec fn dedupe_model(c: ConfigModel) -> ConfigModel {
    ConfigModel {
        labels: Seq::new(
            c.labels.len(),
            |i: int| LabelModel { name: c.labels[i].name, repos: dedup_seq(c.labels[i].repos) },
        ),
        exclude: dedup_seq(c.exclude),
        last_date: c.last_date,
        header: c.header,
        users: c.users,
        exclude_closed_not_merged: c.exclude_closed_not_merged,
        output_path: c.output_path,
        query_type: c.query_type,
    }
}

/// Membership is unchanged by `dedup_seq`.
pub proof fn lemma_dedup_seq_membership(s: Seq<Seq<char>>)
    ensures
        forall|x: Seq<char>| dedup_seq(s).contains(x) <==> s.contains(x),
    decreases s.len(),
{
    if s.len() > 0 {
        lemma_dedup_seq_membership(s.drop_last());
        assert forall|x: Seq<char>| s.contains(x) implies dedup_seq(s).contains(x) by {
            let k = choose|k: int| 0 <= k < s.len() && s[k] == x;
            if k < s.len() - 1 {
                assert(s.drop_last()[k] == x);
                assert(s.drop_last().contains(x));
                assert(dedup_seq(s.drop_last()).contains(x));
                let j = choose|j: int|
                    0 <= j < dedup_seq(s.drop_last()).len() && dedup_seq(s.drop_last())[j] == x;
                assert(dedup_seq(s)[j] == x);
            } else {
                if s.drop_last().contains(x) {
                    let j = choose|j: int|
                        0 <= j < dedup_seq(s.drop_last()).len() && dedup_seq(s.drop_last())[j] == x;
                    assert(dedup_seq(s)[j] == x);
                } else {
                    assert(dedup_seq(s).last() == x);
                }
            }
        }
        assert forall|x: Seq<char>| dedup_seq(s).contains(x) implies s.contains(x) by {
            let j = choose|j: int| 0 <= j < dedup_seq(s).len() && dedup_seq(s)[j] == x;
            let prev = dedup_seq(s.drop_last());
            if j < prev.len() {
                assert(prev[j] == x);
                assert(prev.contains(x));
                assert(s.drop_last().contains(x));
                let k = choose|k: int| 0 <= k < s.drop_last().len() && s.drop_last()[k] == x;
                assert(s.drop_last()[k] == s[k]);
                assert(s.contains(x));
            } else {
                assert(dedup_seq(s)[j] == s.last());
                assert(s[s.len() - 1] == x);
                assert(s.contains(x));
            }
        }
    }
}

/// Every element of `new` is present in the result, and nothing else is
/// added.
pub proof fn lemma_add_missing_contains(rs: Seq<Seq<char>>, new: Seq<Seq<char>>)
    ensures
        forall|x: Seq<char>|
            add_missing(rs, new).contains(x) <==> rs.contains(x) || new.contains(x),
    decreases new.len(),
{
    if new.len() > 0 {
        let rs2 = if rs.contains(new[0]) {
            rs
        } else {
            rs.push(new[0])
        };
        let rest = new.drop_first();
        lemma_add_missing_contains(rs2, rest);
        assert(forall|j: int| 0 <= j < rest.len() ==> rest[j] == new[j + 1]);
        assert forall|x: Seq<char>| rs2.contains(x) <==> rs.contains(x) || x == new[0] by {
            if rs2.contains(x) {
                let k = choose|k: int| 0 <= k < rs2.len() && rs2[k] == x;
                if k < rs.len() {
                    assert(rs[k] == x);
                }
            }
            if rs.contains(x) {
                let k = choose|k: int| 0 <= k < rs.len() && rs[k] == x;
                assert(rs2[k] == x);
            }
            if x == new[0] && !rs.contains(x) {
                assert(rs2[rs.len() as int] == x);
            }
        }
        assert forall|x: Seq<char>| new.contains(x) <==> x == new[0] || rest.contains(x) by {
            if new.contains(x) {
                let k = choose|k: int| 0 <= k < new.len() && new[k] == x;
                if k > 0 {
                    assert(rest[k - 1] == x);
                }
            }
            if rest.contains(x) {
                let k = choose|k: int| 0 <= k < rest.len() && rest[k] == x;
                assert(new[k + 1] == x);
            }
            if x == new[0] {
                assert(new.contains(x));
            }
        }
    }
}

/// Adding elements that are all already present changes nothing.
pub proof fn lemma_add_missing_noop(rs: Seq<Seq<char>>, new: Seq<Seq<char>>)
    requires
        forall|k: int| 0 <= k < new.len() ==> rs.contains(new[k]),
    ensures
        add_missing(rs, new) == rs,
    decreases new.len(),
{
    if new.len() > 0 {
        assert(rs.contains(new[0]));
        let rest = new.drop_first();
        assert forall|k: int| 0 <= k < rest.len() implies rs.contains(rest[k]) by {
            assert(rest[k] == new[k + 1]);
        }
        lemma_add_missing_noop(rs, rest);
    }
}

/// The starting list stays in place at the front of the result.
pub proof fn lemma_add_missing_prefix(rs: Seq<Seq<char>>, new: Seq<Seq<char>>)
    ensures
        rs.is_prefix_of(add_missing(rs, new)),
    decreases new.len(),
{
    if new.len() == 0 {
        assert(rs =~= add_missing(rs, new).subrange(0, rs.len() as int));
    } else {
        let rs2 = if rs.contains(new[0]) {
            rs
        } else {
            rs.push(new[0])
        };
        lemma_add_missing_prefix(rs2, new.drop_first());
        let result = add_missing(rs2, new.drop_first());
        assert(rs2 =~= result.subrange(0, rs2.len() as int));
        assert(rs =~= result.subrange(0, rs.len() as int));
    }
}

/// `ls` holds a label named `dl.name` whose repository list already covers
/// every repository of `dl`.
pub open spec fn label_absorbed(ls: Seq<LabelModel>, dl: LabelModel) -> bool {
    has_label(ls, dl.name) && {
        let i = first_label_index(ls, dl.name);
        forall|k: int| 0 <= k < dl.repos.len() ==> ls[i].repos.contains(dl.repos[k])
    }
}

/// Pins `first_label_index` down from a witness index with no earlier match.
pub(crate) proof fn lemma_first_index_is(ls: Seq<LabelModel>, name: Seq<char>, k: int)
    requires
        0 <= k < ls.len(),
        ls[k].name == name,
        forall|j: int| 0 <= j < k ==> ls[j].name != name,
    ensures
        has_label(ls, name),
        first_label_index(ls, name) == k,
{
    lemma_first_label_index(ls, name);
    assert(exists|k2: int| 0 <= k2 < ls.len() && ls[k2].name == name);
    let i = first_label_index(ls, name);
    if i < k {
        assert(ls[i].name != name);
    }
    if k < i {
        assert(ls[k].name != name);
    }
}

/// After merging `dl`, the result absorbs `dl`.
proof fn lemma_merge_label_into_absorbs(ls: Seq<LabelModel>, dl: LabelModel)
    ensures
        label_absorbed(merge_label_into(ls, dl), dl),
{
    lemma_first_label_index(ls, dl.name);
    let result = merge_label_into(ls, dl);
    if has_label(ls, dl.name) {
        let i = first_label_index(ls, dl.name);
        lemma_first_index_is(result, dl.name, i);
        lemma_add_missing_contains(ls[i].repos, dl.repos);
        assert forall|k: int| 0 <= k < dl.repos.len() implies result[i].repos.contains(
            dl.repos[k],
        ) by {
            assert(dl.repos.contains(dl.repos[k]));
        }
    } else {
        lemma_first_index_is(result, dl.name, ls.len() as int);
        assert forall|k: int| 0 <= k < dl.repos.len() implies result[ls.len() as int].repos
            .contains(dl.repos[k]) by {
            assert(dl.repos.contains(dl.repos[k]));
        }
    }
}

/// Merging some label never un-absorbs another.
proof fn lemma_merge_label_into_preserves_absorbed(
    ls: Seq<LabelModel>,
    dl: LabelModel,
    other: LabelModel,
)
    requires
        label_absorbed(ls, other),
    ensures
        label_absorbed(merge_label_into(ls, dl), other),
{
    lemma_first_label_index(ls, other.name);
    lemma_first_label_index(ls, dl.name);
    let io = first_label_index(ls, other.name);
    let result = merge_label_into(ls, dl);
    if has_label(ls, dl.name) {
        let id = first_label_index(ls, dl.name);
        assert(forall|j: int| 0 <= j < ls.len() ==> result[j].name == ls[j].name);
        lemma_first_index_is(result, other.name, io);
        if id == io {
            lemma_add_missing_contains(ls[id].repos, dl.repos);
        }
    } else {
        lemma_first_index_is(result, other.name, io);
    }
}

/// Merging a whole directive list never un-absorbs a label.
proof fn lemma_merge_labels_preserves_absorbed(
    dls: Seq<LabelModel>,
    ls: Seq<LabelModel>,
    other: LabelModel,
)
    requires
        label_absorbed(ls, other),
    ensures
        label_absorbed(merge_labels(dls, ls), other),
    decreases dls.len(),
{
    if dls.len() > 0 {
        lemma_merge_label_into_preserves_absorbed(ls, dls[0], other);
        lemma_merge_labels_preserves_absorbed(dls.drop_first(), merge_label_into(ls, dls[0]), other);
    }
}

/// After a full merge, every directive label is absorbed.
proof fn lemma_merge_labels_absorbs_all(dls: Seq<LabelModel>, ls: Seq<LabelModel>)
    ensures
        forall|k: int| 0 <= k < dls.len() ==> label_absorbed(merge_labels(dls, ls), dls[k]),
    decreases dls.len(),
{
    if dls.len() > 0 {
        let ls1 = merge_label_into(ls, dls[0]);
        lemma_merge_label_into_absorbs(ls, dls[0]);
        lemma_merge_labels_preserves_absorbed(dls.drop_first(), ls1, dls[0]);
        lemma_merge_labels_absorbs_all(dls.drop_first(), ls1);
        assert forall|k: int| 0 <= k < dls.len() implies label_absorbed(
            merge_labels(dls, ls),
            dls[k],
        ) by {
            if k > 0 {
                assert(dls.drop_first()[k - 1] == dls[k]);
            }
        }
    }
}

/// Merging an absorbed label changes nothing.
proof fn lemma_merge_label_into_noop(ls: Seq<LabelModel>, dl: LabelModel)
    requires
        label_absorbed(ls, dl),
    ensures
        merge_label_into(ls, dl) == ls,
{
    lemma_first_label_index(ls, dl.name);
    let i = first_label_index(ls, dl.name);
    lemma_add_missing_noop(ls[i].repos, dl.repos);
    assert(LabelModel { name: ls[i].name, repos: add_missing(ls[i].repos, dl.repos) } == ls[i]);
    assert(merge_label_into(ls, dl) =~= ls);
}

/// Merging a directive list whose labels are all absorbed changes nothing.
proof fn lemma_merge_labels_noop(dls: Seq<LabelModel>, ls: Seq<LabelModel>)
    requires
        forall|k: int| 0 <= k < dls.len() ==> label_absorbed(ls, dls[k]),
    ensures
        merge_labels(dls, ls) == ls,
    decreases dls.len(),
{
    if dls.len() > 0 {
        lemma_merge_label_into_noop(ls, dls[0]);
        assert forall|k: int| 0 <= k < dls.drop_first().len() implies label_absorbed(
            ls,
            dls.drop_first()[k],
        ) by {
            assert(dls.drop_first()[k] == dls[k + 1]);
        }
        lemma_merge_labels_noop(dls.drop_first(), ls);
    }
}

/// Reconciliation is idempotent: merging the same directive set a second
/// time returns the first result unchanged, the date cursor included.
pub proof fn lemma_reconcile_idempotent(d: CommentModel, c: ConfigModel)
    ensures
        merge_model(d, merge_model(d, c)) == merge_model(d, c),
{
    let m = merge_model(d, c);
    lemma_merge_labels_absorbs_all(d.labels, c.labels);
    lemma_merge_labels_noop(d.labels, m.labels);
    lemma_add_missing_contains(c.exclude, d.excluded);
    assert forall|k: int| 0 <= k < d.excluded.len() implies m.exclude.contains(d.excluded[k]) by {
        assert(d.excluded.contains(d.excluded[k]));
    }
    lemma_add_missing_noop(m.exclude, d.excluded);
    assert(merge_model(d, m) =~= m);
}

/// Directive labels merge by byte-exact name equality, with no case
/// folding, trimming or fuzzy matching: a merged label leaves every entry
/// of a different name exactly as it was, and a name matching no entry —
/// such as a spaced name beside its space-free prefix — is appended as a
/// new label.
pub proof fn lemma_merge_matches_names_exactly(ls: Seq<LabelModel>, dl: LabelModel)
    ensures
        forall|i: int|
            0 <= i < ls.len() && ls[i].name != dl.name ==> merge_label_into(ls, dl)[i] == ls[i],
        (forall|i: int| 0 <= i < ls.len() ==> ls[i].name != dl.name) ==> merge_label_into(ls, dl)
            == ls.push(dl),
{
    lemma_first_label_index(ls, dl.name);
    if has_label(ls, dl.name) {
        let k = first_label_index(ls, dl.name);
        assert(ls[k].name == dl.name);
    }
}

/// Prefix relations compose.
proof fn lemma_prefix_transitive(a: Seq<Seq<char>>, b: Seq<Seq<char>>, c: Seq<Seq<char>>)
    requires
        a.is_prefix_of(b),
        b.is_prefix_of(c),
    ensures
        a.is_prefix_of(c),
{
    assert(a =~= c.subrange(0, a.len() as int));
}

/// Merging one label keeps every existing label in place: names are
/// unchanged and each repository list only grows at its end.
proof fn lemma_merge_label_into_order(ls: Seq<LabelModel>, dl: LabelModel)
    ensures
        merge_label_into(ls, dl).len() >= ls.len(),
        forall|i: int|
            0 <= i < ls.len() ==> merge_label_into(ls, dl)[i].name == ls[i].name
                && ls[i].repos.is_prefix_of(merge_label_into(ls, dl)[i].repos),
{
    lemma_first_label_index(ls, dl.name);
    let result = merge_label_into(ls, dl);
    assert forall|i: int| 0 <= i < ls.len() implies result[i].name == ls[i].name
        && ls[i].repos.is_prefix_of(result[i].repos) by {
        if has_label(ls, dl.name) && i == first_label_index(ls, dl.name) {
            lemma_add_missing_prefix(ls[i].repos, dl.repos);
        } else {
            assert(result[i] == ls[i]);
            assert(ls[i].repos =~= result[i].repos.subrange(0, ls[i].repos.len() as int));
        }
    }
}

/// Merging a whole directive list keeps every existing label in place.
proof fn lemma_merge_labels_order(dls: Seq<LabelModel>, ls: Seq<LabelModel>)
    ensures
        merge_labels(dls, ls).len() >= ls.len(),
        forall|i: int|
            0 <= i < ls.len() ==> merge_labels(dls, ls)[i].name == ls[i].name
                && ls[i].repos.is_prefix_of(merge_labels(dls, ls)[i].repos),
    decreases dls.len(),
{
    if dls.len() == 0 {
        assert forall|i: int| 0 <= i < ls.len() implies merge_labels(dls, ls)[i].name == ls[i].name
            && ls[i].repos.is_prefix_of(merge_labels(dls, ls)[i].repos) by {
            assert(ls[i].repos =~= ls[i].repos.subrange(0, ls[i].repos.len() as int));
        }
    } else {
        let ls1 = merge_label_into(ls, dls[0]);
        lemma_merge_label_into_order(ls, dls[0]);
        lemma_merge_labels_order(dls.drop_first(), ls1);
        assert forall|i: int| 0 <= i < ls.len() implies merge_labels(dls, ls)[i].name == ls[i].name
            && ls[i].repos.is_prefix_of(merge_labels(dls, ls)[i].repos) by {
            lemma_prefix_transitive(
                ls[i].repos,
                ls1[i].repos,
                merge_labels(dls.drop_first(), ls1)[i].repos,
            );
        }
    }
}

/// Order preservation: reconciliation keeps the labels already present, in
/// their order and with their repositories' order intact; new labels and
/// repositories are only ever appended, and the exclusion list is only ever
/// extended at its end.
pub proof fn lemma_reconcile_preserves_order(d: CommentModel, c: ConfigModel)
    ensures
        merge_model(d, c).labels.len() >= c.labels.len(),
        forall|i: int|
            0 <= i < c.labels.len() ==> merge_model(d, c).labels[i].name == c.labels[i].name
                && c.labels[i].repos.is_prefix_of(merge_model(d, c).labels[i].repos),
        c.exclude.is_prefix_of(merge_model(d, c).exclude),
{
    lemma_merge_labels_order(d.labels, c.labels);
    lemma_add_missing_prefix(c.exclude, d.excluded);
}

/// The first position of `x` in `s`, or `s.len()` when `x` does not occur.
pub open spec fn first_occurrence(s: Seq<Seq<char>>, x: Seq<char>) -> int {
    match s.index_of_first(x) {
        Some(i) => i,
        None => s.len() as int,
    }
}

/// A first occurrence inside a prefix is a first occurrence of the whole.
proof fn lemma_first_occurrence_extend(s: Seq<Seq<char>>, x: Seq<char>)
    requires
        s.len() > 0,
        s.drop_last().contains(x),
    ensures
        first_occurrence(s, x) == first_occurrence(s.drop_last(), x),
{
    let short = s.drop_last();
    short.index_of_first_ensures(x);
    s.index_of_first_ensures(x);
    let k = first_occurrence(short, x);
    assert(s[k] == x);
    assert(s.contains(x));
    let i = first_occurrence(s, x);
    if i < k {
        assert(short[i] == x);
    }
    if k < i {
        assert(s[k] != x);
    }
}

/// Deduplication is correct: membership is preserved, the result has no
/// duplicates, entries stand in the order of their first occurrences, and a
/// second pass changes nothing.
pub proof fn lemma_dedup_seq_correct(s: Seq<Seq<char>>)
    ensures
        forall|x: Seq<char>| dedup_seq(s).contains(x) <==> s.contains(x),
        dedup_seq(s).no_duplicates(),
        forall|i: int, j: int|
            0 <= i < j < dedup_seq(s).len() ==> first_occurrence(s, dedup_seq(s)[i])
                < first_occurrence(s, dedup_seq(s)[j]),
        dedup_seq(dedup_seq(s)) == dedup_seq(s),
    decreases s.len(),
{
    lemma_dedup_seq_membership(s);
    lemma_dedup_seq_distinct(s);
    lemma_dedup_seq_first_occurrence_order(s);
    lemma_dedup_seq_of_distinct(dedup_seq(s));
}

/// The result of `dedup_seq` has no duplicate entries.
pub proof fn lemma_dedup_seq_distinct(s: Seq<Seq<char>>)
    ensures
        dedup_seq(s).no_duplicates(),
    decreases s.len(),
{
    if s.len() > 0 {
        lemma_dedup_seq_distinct(s.drop_last());
        lemma_dedup_seq_membership(s.drop_last());
        let prev = dedup_seq(s.drop_last());
        if !s.drop_last().contains(s.last()) {
            assert forall|i: int, j: int|
                0 <= i < prev.push(s.last()).len() && 0 <= j < prev.push(s.last()).len() && i
                    != j implies prev.push(s.last())[i] != prev.push(s.last())[j] by {
                if i < prev.len() && j == prev.len() {
                    assert(prev.contains(prev[i]));
                }
                if j < prev.len() && i == prev.len() {
                    assert(prev.contains(prev[j]));
                }
            }
        }
    }
}

/// On a list without duplicates, `dedup_seq` is the identity.
pub proof fn lemma_dedup_seq_of_distinct(s: Seq<Seq<char>>)
    requires
        s.no_duplicates(),
    ensures
        dedup_seq(s) == s,
    decreases s.len(),
{
    if s.len() == 0 {
        assert(dedup_seq(s) =~= s);
    } else {
        assert(s.drop_last().no_duplicates());
        lemma_dedup_seq_of_distinct(s.drop_last());
        if s.drop_last().contains(s.last()) {
            let k = choose|k: int| 0 <= k < s.drop_last().len() && s.drop_last()[k] == s.last();
            assert(s[k] == s[s.len() - 1]);
            assert(false);
        }
        assert(dedup_seq(s) =~= s);
    }
}

/// Deduplicated entries stand in the order of their first occurrences.
proof fn lemma_dedup_seq_first_occurrence_order(s: Seq<Seq<char>>)
    ensures
        forall|i: int, j: int|
            0 <= i < j < dedup_seq(s).len() ==> first_occurrence(s, dedup_seq(s)[i])
                < first_occurrence(s, dedup_seq(s)[j]),
    decreases s.len(),
{
    if s.len() > 0 {
        let short = s.drop_last();
        let prev = dedup_seq(short);
        lemma_dedup_seq_first_occurrence_order(short);
        lemma_dedup_seq_membership(short);
        s.index_of_first_ensures(s.last());
        assert forall|i: int, j: int| 0 <= i < j < dedup_seq(s).len() implies first_occurrence(
            s,
            dedup_seq(s)[i],
        ) < first_occurrence(s, dedup_seq(s)[j]) by {
            if j < prev.len() {
                assert(prev.contains(prev[i]));
                assert(prev.contains(prev[j]));
                lemma_first_occurrence_extend(s, prev[i]);
                lemma_first_occurrence_extend(s, prev[j]);
            } else {
                // j points at the newly kept last element
                assert(!short.contains(s.last()));
                assert(dedup_seq(s)[j] == s.last());
                assert(first_occurrence(s, s.last()) == s.len() - 1) by {
                    assert(s[s.len() - 1] == s.last());
                    s.index_of_first_ensures(s.last());
                    let f = first_occurrence(s, s.last());
                    if f < s.len() - 1 {
                        assert(short[f] == s.last());
                    }
                }
                assert(prev.contains(prev[i]));
                lemma_first_occurrence_extend(s, prev[i]);
                short.index_of_first_ensures(prev[i]);
            }
        }
    }
}

/// A second deduplication pass returns its input unchanged.
pub proof fn lemma_dedupe_model_idempotent(c: ConfigModel)
    ensures
        dedupe_model(dedupe_model(c)) == dedupe_model(c),
{
    let once = dedupe_model(c);
    assert forall|i: int| 0 <= i < once.labels.len() implies dedup_seq(once.labels[i].repos)
        == once.labels[i].repos by {
        lemma_dedup_seq_distinct(c.labels[i].repos);
        lemma_dedup_seq_of_distinct(dedup_seq(c.labels[i].repos));
    }
    lemma_dedup_seq_distinct(c.exclude);
    lemma_dedup_seq_of_distinct(dedup_seq(c.exclude));
    assert(dedupe_model(once).labels =~= once.labels);
    assert(dedupe_model(once) =~= once);
}

/// String equality test against a list, at the level of views.
pub(crate) fn contains_string(v: &Vec<String>, x: &String) -> (r: bool)
    ensures
        r == v.deep_view().contains(x@),
{
    let mut i: usize = 0;
    while i < v.len()
        invariant
            0 <= i <= v.len(),
            forall|j: int| 0 <= j < i ==> v.deep_view()[j] != x@,
        decreases v.len() - i,
    {
        if v[i] == *x {
            proof {
                assert(v.deep_view()[i as int] == x@);
            }
            return true;
        }
        i = i + 1;
    }
    false
}

/// Copies a list of strings, element by element.
pub(crate) fn clone_string_vec(v: &Vec<String>) -> (r: Vec<String>)
    ensures
        r@ == v@,
{
    let mut r: Vec<String> = Vec::new();
    let mut i: usize = 0;
    while i < v.len()
        invariant
            0 <= i <= v.len(),
            r@ == v@.subrange(0, i as int),
        decreases v.len() - i,
    {
        r.push(v[i].clone());
        proof {
            assert(r@ =~= v@.subrange(0, i + 1 as int));
        }
        i = i + 1;
    }
    proof {
        assert(r@ =~= v@);
    }
    r
}

/// Copies a list of labels, element by element.
pub(crate) fn clone_labels(v: &Vec<LabelConfig>) -> (r: Vec<LabelConfig>)
    ensures
        r.deep_view() == v.deep_view(),
{
    let mut r: Vec<LabelConfig> = Vec::new();
    let mut i: usize = 0;
    while i < v.len()
        invariant
            0 <= i <= v.len(),
            r.deep_view() == v.deep_view().subrange(0, i as int),
        decreases v.len() - i,
    {
        let ghost r0 = r.deep_view();
        r.push(LabelConfig { name: v[i].name.clone(), repos: clone_string_vec(&v[i].repos) });
        proof {
            assert(r.deep_view() =~= r0.push(v.deep_view()[i as int]));
            assert(r.deep_view() =~= v.deep_view().subrange(0, i + 1 as int));
        }
        i = i + 1;
    }
    proof {
        assert(v.deep_view().subrange(0, v.deep_view().len() as int) =~= v.deep_view());
    }
    r
}

/// Merges an extracted directive set into a configuration: repositories and
/// labels are appended only when not already present, the exclusion list is
/// extended the same way, and the date cursor is overwritten with the
/// directive date (even when that date is empty).  The directive set itself
/// is left unchanged.
#[verifier::loop_isolation(false)]
pub fn merge_with_file_config(
    comment_output: &mut TwiosCommentOutput,
    file_config: FileConfig,
) -> (r: FileConfig)
    ensures
        r@ == merge_model(old(comment_output)@, file_config@),
        *final(comment_output) == *old(comment_output),
{
    let ghost d = comment_output@;
    let ghost c0 = file_config@;
    let mut new_config = file_config;

    proof {
        assert(d.labels.skip(0) =~= d.labels);
    }
    let mut i: usize = 0;
    while i < comment_output.labels.len()
        invariant
            0 <= i <= comment_output.labels.len(),
            merge_labels(d.labels.skip(i as int), new_config.labels.deep_view()) == merge_labels(
                d.labels,
                c0.labels,
            ),
            new_config.header == file_config.header,
            new_config.users == file_config.users,
            new_config.exclude == file_config.exclude,
            new_config.exclude_closed_not_merged == file_config.exclude_closed_not_merged,
            new_config.output_path == file_config.output_path,
            new_config.last_date == file_config.last_date,
            new_config.query_type == file_config.query_type,
        decreases comment_output.labels.len() - i,
    {
        let ghost dl = d.labels[i as int];
        let ghost ls = new_config.labels.deep_view();
        proof {
            assert(comment_output.labels.deep_view()[i as int] == dl);
            assert(comment_output.labels@[i as int]@ == dl);
            lemma_first_label_index(ls, dl.name);
        }

        // Find the first label of the same name, if any.
        let mut j: usize = 0;
        let mut found: bool = false;
        while j < new_config.labels.len() && !found
            invariant
                0 <= j <= new_config.labels.len(),
                forall|k: int| 0 <= k < j ==> ls[k].name != dl.name,
                found ==> j < new_config.labels.len() && ls[j as int].name == dl.name,
                new_config.labels.deep_view() == ls,
            decreases new_config.labels.len() - j + (if found { 0int } else { 1int }),
        {
            if new_config.labels[j].name == comment_output.labels[i].name {
                found = true;
                proof {
                    assert(new_config.labels.deep_view()[j as int].name == new_config.labels@[
                        j as int].name@);
                }
            } else {
                proof {
                    assert(ls[j as int].name == new_config.labels@[j as int].name@);
                }
                j = j + 1;
            }
        }

        if found {
            proof {
                assert(has_label(ls, dl.name)) by {
                    lemma_first_label_index(ls, dl.name);
                    assert(ls[j as int].name == dl.name);
                }
                lemma_first_label_index(ls, dl.name);
                assert(first_label_index(ls, dl.name) == j as int);
            }
            let mut entry = new_config.labels.remove(j);
            let ghost rs0 = entry.repos.deep_view();
            proof {
                assert(dl.repos.skip(0) =~= dl.repos);
            }
            let mut k: usize = 0;
            while k < comment_output.labels[i].repos.len()
                invariant
                    0 <= k <= dl.repos.len(),
                    entry.name@ == dl.name,
                    add_missing(entry.repos.deep_view(), dl.repos.skip(k as int)) == add_missing(
                        rs0,
                        dl.repos,
                    ),
                decreases dl.repos.len() - k,
            {
                let ghost rs_cur = entry.repos.deep_view();
                proof {
                    assert(comment_output.labels@[i as int].repos.deep_view()[k as int]
                        == comment_output.labels@[i as int].repos@[k as int]@);
                    assert(dl.repos[k as int] == comment_output.labels@[i as int].repos@[k as int]@);
                    assert(dl.repos.skip(k as int)[0] == dl.repos[k as int]);
                    assert(dl.repos.skip(k as int).drop_first() =~= dl.repos.skip(k as int + 1));
                }
                if !contains_string(&entry.repos, &comment_output.labels[i].repos[k]) {
                    entry.repos.push(comment_output.labels[i].repos[k].clone());
                    proof {
                        assert(entry.repos.deep_view() =~= rs_cur.push(dl.repos[k as int]));
                    }
                }
                k = k + 1;
            }
            proof {
                assert(dl.repos.skip(dl.repos.len() as int) =~= Seq::<Seq<char>>::empty());
                assert(entry.repos.deep_view() == add_missing(rs0, dl.repos));
            }
            let ghost labels_before_insert = new_config.labels.deep_view();
            new_config.labels.insert(j, entry);
            proof {
                assert(new_config.labels.deep_view() =~= merge_label_into(ls, dl)) by {
                    assert(ls[j as int].repos == rs0);
                    assert(ls[j as int].name == dl.name);
                }
            }
        } else {
            proof {
                lemma_first_label_index(ls, dl.name);
                assert(!has_label(ls, dl.name));
            }
            let name_c = comment_output.labels[i].name.clone();
            let repos_c = clone_string_vec(&comment_output.labels[i].repos);
            new_config.labels.push(LabelConfig { name: name_c, repos: repos_c });
            proof {
                assert(new_config.labels.deep_view() =~= ls.push(dl));
            }
        }
        proof {
            assert(d.labels.skip(i as int)[0] == dl);
            assert(d.labels.skip(i as int).drop_first() =~= d.labels.skip(i as int + 1));
            assert(new_config.labels.deep_view() == merge_label_into(ls, dl));
        }
        i = i + 1;
    }
    proof {
        assert(d.labels.skip(d.labels.len() as int) =~= Seq::<LabelModel>::empty());
        assert(new_config.labels.deep_view() == merge_labels(d.labels, c0.labels));
    }

    proof {
        assert(d.excluded.skip(0) =~= d.excluded);
    }
    let mut k: usize = 0;
    while k < comment_output.excluded.len()
        invariant
            0 <= k <= comment_output.excluded.len(),
            add_missing(new_config.exclude.deep_view(), d.excluded.skip(k as int)) == add_missing(
                c0.exclude,
                d.excluded,
            ),
            new_config.labels.deep_view() == merge_labels(d.labels, c0.labels),
            new_config.header == file_config.header,
            new_config.users == file_config.users,
            new_config.exclude_closed_not_merged == file_config.exclude_closed_not_merged,
            new_config.output_path == file_config.output_path,
            new_config.last_date == file_config.last_date,
            new_config.query_type == file_config.query_type,
        decreases comment_output.excluded.len() - k,
    {
        let ghost ex_cur = new_config.exclude.deep_view();
        proof {
            assert(comment_output.excluded.deep_view()[k as int] == comment_output.excluded@[
                k as int]@);
            assert(d.excluded.skip(k as int)[0] == d.excluded[k as int]);
            assert(d.excluded.skip(k as int).drop_first() =~= d.excluded.skip(k as int + 1));
        }
        if !contains_string(&new_config.exclude, &comment_output.excluded[k]) {
            new_config.exclude.push(comment_output.excluded[k].clone());
            proof {
                assert(new_config.exclude.deep_view() =~= ex_cur.push(d.excluded[k as int]));
            }
        }
        k = k + 1;
    }
    proof {
        assert(d.excluded.skip(d.excluded.len() as int) =~= Seq::<Seq<char>>::empty());
        assert(new_config.exclude.deep_view() == add_missing(c0.exclude, d.excluded));
    }

    new_config.last_date = comment_output.date.clone();

    proof {
        assert(new_config@ =~= merge_model(d, c0));
    }
    new_config
}

/// Collapses duplicate repository entries within every label and within the
/// exclusion list, keeping the first occurrence of each.
#[verifier::loop_isolation(false)]
pub fn dedupe_file_config(file_config: &mut FileConfig)
    ensures
        final(file_config)@ == dedupe_model(old(file_config)@),
{
    let ghost c0 = file_config@;
    let mut i: usize = 0;
    while i < file_config.labels.len()
        invariant
            0 <= i <= file_config.labels.len(),
            file_config.labels.len() == c0.labels.len(),
            forall|j: int|
                0 <= j < i ==> file_config.labels.deep_view()[j] == (LabelModel {
                    name: c0.labels[j].name,
                    repos: dedup_seq(c0.labels[j].repos),
                }),
            forall|j: int|
                i <= j < c0.labels.len() ==> file_config.labels.deep_view()[j] == c0.labels[j],
            file_config.header == old(file_config).header,
            file_config.users == old(file_config).users,
            file_config.exclude == old(file_config).exclude,
            file_config.exclude_closed_not_merged == old(file_config).exclude_closed_not_merged,
            file_config.output_path == old(file_config).output_path,
            file_config.last_date == old(file_config).last_date,
            file_config.query_type == old(file_config).query_type,
        decreases file_config.labels.len() - i,
    {
        let ghost labels_cur = file_config.labels.deep_view();
        let mut entry = file_config.labels.remove(i);
        proof {
            assert(entry@ == labels_cur[i as int]);
        }
        let deduped = dedup_strings(&entry.repos);
        entry.repos = deduped;
        let ghost entry_after = entry@;
        file_config.labels.insert(i, entry);
        proof {
            assert(file_config.labels.deep_view() =~= labels_cur.update(i as int, entry_after));
            assert(entry_after == (LabelModel {
                name: c0.labels[i as int].name,
                repos: dedup_seq(c0.labels[i as int].repos),
            }));
        }
        i = i + 1;
    }
    let deduped_exclude = dedup_strings(&file_config.exclude);
    file_config.exclude = deduped_exclude;
    proof {
        assert(file_config@ =~= dedupe_model(c0)) by {
            assert(file_config.labels.deep_view() =~= dedupe_model(c0).labels);
        }
    }
}

/// Keeps the first occurrence of every string and drops the later ones.
#[verifier::loop_isolation(false)]
pub(crate) fn dedup_strings(v: &Vec<String>) -> (r: Vec<String>)
    ensures
        r.deep_view() == dedup_seq(v.deep_view()),
{
    let mut r: Vec<String> = Vec::new();
    let mut i: usize = 0;
    proof {
        assert(v.deep_view().subrange(0, 0) =~= Seq::<Seq<char>>::empty());
        assert(r.deep_view() =~= Seq::<Seq<char>>::empty());
    }
    while i < v.len()
        invariant
            0 <= i <= v.len(),
            r.deep_view() == dedup_seq(v.deep_view().subrange(0, i as int)),
        decreases v.len() - i,
    {
        let ghost dv = v.deep_view();
        let ghost r_cur = r.deep_view();
        proof {
            lemma_dedup_seq_membership(dv.subrange(0, i as int));
            assert(dv.subrange(0, i + 1 as int).drop_last() =~= dv.subrange(0, i as int));
            assert(dv.subrange(0, i + 1 as int).last() == dv[i as int]);
            assert(dv[i as int] == v@[i as int]@);
        }
        if !contains_string(&r, &v[i]) {
            r.push(v[i].clone());
            proof {
                assert(r.deep_view() =~= r_cur.push(dv[i as int]));
            }
        }
        i = i + 1;
    }
    proof {
        assert(v.deep_view().subrange(0, v.deep_view().len() as int) =~= v.deep_view());
    }
    r
}

} // verus!
