//! Digest assembly: the pull-request items of a run, their grouping under
//! labels, and the markdown lines generated from them.  Fetching the items
//! from the hosting service belongs to the caller, which hands them in as
//! plain values.

use vstd::prelude::*;

use vstd::multiset::Multiset;

use crate::chars::str_eq;
use crate::cli::{split_on, split_string};
use crate::config::contains_string;

verus! {

/// Whether a pull request was found to be merged.
#[derive(Debug, Clone, Copy, PartialEq, Eq, Structural)]
pub enum ItemMergeStatus {
    Merged,
    NotMerged,
    Unknown,
}

impl ItemMergeStatus {
    /// The status recorded for the answer of a merge query: a definite
    /// answer is recorded as it is, a failed query leaves the status
    /// unknown.
    pub fn from_query(answer: Option<bool>) -> (r: Self)
        ensures
            r == (match answer {
                Some(true) => ItemMergeStatus::Merged,
                Some(false) => ItemMergeStatus::NotMerged,
                None => ItemMergeStatus::Unknown,
            }),
    {
        match answer {
            Some(true) => ItemMergeStatus::Merged,
            Some(false) => ItemMergeStatus::NotMerged,
            None => ItemMergeStatus::Unknown,
        }
    }
}

/// One authored pull request, as plain values.
#[derive(Debug, Clone, PartialEq)]
pub struct Item {
    pub issue_number: String,
    pub issue_title: String,
    pub issue_url: String,
    pub organization_name: String,
    pub repository_name: String,
    pub full_repository_name: String,
    pub repository_url: String,
    pub user_login: String,
    pub user_url: String,
    pub state: String,  // "open", "closed"
    pub merge_status: ItemMergeStatus,
}

/// Mathematical model of an `Item`.
#[verifier::ext_equal]
pub ghost struct ItemModel {
    pub issue_number: Seq<char>,
    pub issue_title: Seq<char>,
    pub issue_url: Seq<char>,
    pub organization_name: Seq<char>,
    pub repository_name: Seq<char>,
    pub full_repository_name: Seq<char>,
    pub repository_url: Seq<char>,
    pub user_login: Seq<char>,
    pub user_url: Seq<char>,
    pub state: Seq<char>,
    pub merge_status: ItemMergeStatus,
}

impl View for Item {
    type V = ItemModel;

    open spec fn view(&self) -> ItemModel {
        ItemModel {
            issue_number: self.issue_number@,
            issue_title: self.issue_title@,
            issue_url: self.issue_url@,
            organization_name: self.organization_name@,
            repository_name: self.repository_name@,
            full_repository_name: self.full_repository_name@,
            repository_url: self.repository_url@,
            user_login: self.user_login@,
            user_url: self.user_url@,
            state: self.state@,
            merge_status: self.merge_status,
        }
    }
}

impl DeepView for Item {
    type V = ItemModel;

    open spec fn deep_view(&self) -> ItemModel {
        self.view()
    }
}

impl Item {
    /// An equal copy.
    pub fn duplicate(&self) -> (r: Item)
        ensures
            r == *self,
    {
        Item {
            issue_number: self.issue_number.clone(),
            issue_title: self.issue_title.clone(),
            issue_url: self.issue_url.clone(),
            organization_name: self.organization_name.clone(),
            repository_name: self.repository_name.clone(),
            full_repository_name: self.full_repository_name.clone(),
            repository_url: self.repository_url.clone(),
            user_login: self.user_login.clone(),
            user_url: self.user_url.clone(),
            state: self.state.clone(),
            merge_status: self.merge_status,
        }
    }
}

/// A label together with the items matched to it.
#[derive(Debug, PartialEq)]
pub struct LabelledItem {
    pub name: String,
    pub repos: Vec<String>,
    pub items: Vec<Item>,
}

/// Mathematical model of a `LabelledItem`.
#[verifier::ext_equal]
pub ghost struct LabelledModel {
    pub name: Seq<char>,
    pub repos: Seq<Seq<char>>,
    pub items: Seq<ItemModel>,
}

impl View for LabelledItem {
    type V = LabelledModel;

    open spec fn view(&self) -> LabelledModel {
        LabelledModel {
            name: self.name@,
            repos: self.repos.deep_view(),
            items: self.items.deep_view(),
        }
    }
}

impl DeepView for LabelledItem {
    type V = LabelledModel;

    open spec fn deep_view(&self) -> LabelledModel {
        self.view()
    }
}

/// The digest line of one item.
pub open spec fn format_item_model(user: Seq<char>, it: ItemModel) -> Seq<char> {
    "- ["@ + it.full_repository_name + "] [#"@ + it.issue_number + "]("@ + it.issue_url + ") "@
        + it.issue_title + " (["@ + "@"@ + user + "])"@
}

/// Renders one item as a digest line.
pub fn format_item(user_login: String, item: &Item) -> (r: String)
    ensures
        r@ == format_item_model(user_login@, item@),
{
    let mut r = String::from_str("- [");
    r.append(item.full_repository_name.as_str());
    r.append("] [#");
    r.append(item.issue_number.as_str());
    r.append("](");
    r.append(item.issue_url.as_str());
    r.append(") ");
    r.append(item.issue_title.as_str());
    r.append(" ([");
    r.append("@");
    r.append(user_login.as_str());
    r.append("])");
    r
}

/// The heading of one label.
pub open spec fn format_label_model(name: Seq<char>) -> Seq<char> {
    "## "@ + name
}

/// Renders a label's heading.
pub fn format_label(repo: &LabelledItem) -> (r: String)
    ensures
        r@ == format_label_model(repo.name@),
{
    let mut r = String::from_str("## ");
    r.append(repo.name.as_str());
    r
}

/// Renders every item, each under its own author.
pub fn format_items(items: &Vec<Item>) -> (r: Vec<String>)
    ensures
        r@.len() == items@.len(),
        forall|i: int|
            0 <= i < items@.len() ==> r.deep_view()[i] == format_item_model(
                items.deep_view()[i].user_login,
                items.deep_view()[i],
            ),
{
    let mut r: Vec<String> = Vec::new();
    let mut i: usize = 0;
    while i < items.len()
        invariant
            0 <= i <= items.len(),
            r@.len() == i,
            forall|j: int|
                0 <= j < i ==> r.deep_view()[j] == format_item_model(
                    items.deep_view()[j].user_login,
                    items.deep_view()[j],
                ),
        decreases items.len() - i,
    {
        let ghost r0 = r.deep_view();
        let line = format_item(items[i].user_login.clone(), &items[i]);
        r.push(line);
        proof {
            assert(items.deep_view()[i as int] == items@[i as int]@);
            assert(r.deep_view() =~= r0.push(line@));
        }
        i = i + 1;
    }
    r
}

/// An item stays in the digest unless it is closed without having been
/// merged.
pub open spec fn keeps_item(it: ItemModel) -> bool {
    !(it.merge_status == ItemMergeStatus::NotMerged && it.state == "closed"@)
}

/// The items that stay, in order.
pub open spec fn filter_merged(s: Seq<ItemModel>) -> Seq<ItemModel>
    decreases s.len(),
{
    if s.len() == 0 {
        Seq::empty()
    } else {
        let prev = filter_merged(s.drop_last());
        if keeps_item(s.last()) {
            prev.push(s.last())
        } else {
            prev
        }
    }
}

/// Drops every item that is closed without having been merged.
#[verifier::loop_isolation(false)]
pub fn filter_items_by_merge_status(items: Vec<Item>) -> (r: Vec<Item>)
    ensures
        r.deep_view() == filter_merged(items.deep_view()),
{
    let ghost dv = items.deep_view();
    let mut r: Vec<Item> = Vec::new();
    proof {
        assert(r.deep_view() =~= filter_merged(dv.subrange(0, 0)));
    }
    let mut i: usize = 0;
    while i < items.len()
        invariant
            0 <= i <= items.len(),
            r.deep_view() == filter_merged(dv.subrange(0, i as int)),
        decreases items.len() - i,
    {
        let ghost r0 = r.deep_view();
        proof {
            assert(dv.subrange(0, i + 1 as int).drop_last() =~= dv.subrange(0, i as int));
            assert(dv.subrange(0, i + 1 as int).last() == dv[i as int]);
            assert(items@[i as int]@ == dv[i as int]);
        }
        let keep = !(matches!(items[i].merge_status, ItemMergeStatus::NotMerged) && str_eq(
            items[i].state.as_str(),
            "closed",
        ));
        if keep {
            r.push(items[i].duplicate());
            proof {
                assert(r.deep_view() =~= r0.push(dv[i as int]));
            }
        }
        i = i + 1;
    }
    proof {
        assert(dv.subrange(0, dv.len() as int) =~= dv);
    }
    r
}

/// The search query that fetches a user's pull requests for a date range.
pub open spec fn pr_query_model(user: Seq<char>, date_sign: Seq<char>, date: Seq<char>) -> Seq<
    char,
> {
    "is:pr author:"@ + user + " created:"@ + date_sign + date
}

/// Builds the search query for one user: the query the caller sends to the
/// hosting service.
pub fn build_pr_query(user: &String, date_sign: &String, date: &String) -> (r: String)
    ensures
        r@ == pr_query_model(user@, date_sign@, date@),
{
    let mut r = String::from_str("is:pr author:");
    r.append(user.as_str());
    r.append(" created:");
    r.append(date_sign.as_str());
    r.append(date.as_str());
    r
}

/// The items whose repository is not excluded, in order.
pub open spec fn filter_excluded_model(s: Seq<ItemModel>, exclude: Seq<Seq<char>>) -> Seq<
    ItemModel,
>
    decreases s.len(),
{
    if s.len() == 0 {
        Seq::empty()
    } else {
        let prev = filter_excluded_model(s.drop_last(), exclude);
        if !exclude.contains(s.last().full_repository_name) {
            prev.push(s.last())
        } else {
            prev
        }
    }
}

/// Drops every item whose repository stands in the exclusion list.
#[verifier::loop_isolation(false)]
pub fn filter_excluded_items(items: Vec<Item>, exclude: &Vec<String>) -> (r: Vec<Item>)
    ensures
        r.deep_view() == filter_excluded_model(items.deep_view(), exclude.deep_view()),
{
    let ghost dv = items.deep_view();
    let ghost ex = exclude.deep_view();
    let mut r: Vec<Item> = Vec::new();
    proof {
        assert(r.deep_view() =~= filter_excluded_model(dv.subrange(0, 0), ex));
    }
    let mut i: usize = 0;
    while i < items.len()
        invariant
            0 <= i <= items.len(),
            r.deep_view() == filter_excluded_model(dv.subrange(0, i as int), ex),
        decreases items.len() - i,
    {
        let ghost r0 = r.deep_view();
        proof {
            assert(dv.subrange(0, i + 1 as int).drop_last() =~= dv.subrange(0, i as int));
            assert(dv.subrange(0, i + 1 as int).last() == dv[i as int]);
            assert(items@[i as int]@ == dv[i as int]);
        }
        if !contains_string(exclude, &items[i].full_repository_name) {
            r.push(items[i].duplicate());
            proof {
                assert(r.deep_view() =~= r0.push(dv[i as int]));
            }
        }
        i = i + 1;
    }
    proof {
        assert(dv.subrange(0, dv.len() as int) =~= dv);
    }
    r
}

/// Whether some label's repository list covers `repo`.
pub open spec fn has_repo_match(ls: Seq<LabelledModel>, repo: Seq<char>) -> bool
    decreases ls.len(),
{
    ls.len() > 0 && (ls[0].repos.contains(repo) || has_repo_match(ls.drop_first(), repo))
}

/// The position of the first label covering `repo`, or `ls.len()`.
pub open spec fn first_repo_match(ls: Seq<LabelledModel>, repo: Seq<char>) -> int
    decreases ls.len(),
{
    if ls.len() == 0 {
        0
    } else if ls[0].repos.contains(repo) {
        0
    } else {
        1 + first_repo_match(ls.drop_first(), repo)
    }
}

pub proof fn lemma_first_repo_match(ls: Seq<LabelledModel>, repo: Seq<char>)
    ensures
        has_repo_match(ls, repo) <==> exists|k: int|
            0 <= k < ls.len() && ls[k].repos.contains(repo),
        has_repo_match(ls, repo) ==> {
            let i = first_repo_match(ls, repo);
            &&& 0 <= i < ls.len()
            &&& ls[i].repos.contains(repo)
            &&& forall|j: int| 0 <= j < i ==> !ls[j].repos.contains(repo)
        },
        !has_repo_match(ls, repo) ==> first_repo_match(ls, repo) == ls.len(),
    decreases ls.len(),
{
    if ls.len() > 0 {
        let rest = ls.drop_first();
        lemma_first_repo_match(rest, repo);
        assert(forall|j: int| 0 <= j < rest.len() ==> rest[j] == ls[j + 1]);
        if !ls[0].repos.contains(repo) {
            if exists|k: int| 0 <= k < ls.len() && ls[k].repos.contains(repo) {
                let k = choose|k: int| 0 <= k < ls.len() && ls[k].repos.contains(repo);
                assert(rest[k - 1].repos.contains(repo));
                assert(exists|k2: int| 0 <= k2 < rest.len() && rest[k2].repos.contains(repo));
            }
            if has_repo_match(rest, repo) {
                let i = 1 + first_repo_match(rest, repo);
                assert forall|j: int| 0 <= j < i implies !ls[j].repos.contains(repo) by {
                    if j > 0 {
                        assert(!rest[j - 1].repos.contains(repo));
                    }
                }
            }
        }
    }
}

/// How one item is matched: filed under the first label covering its
/// repository, or put aside as unknown.
pub open spec fn match_step(
    ls: Seq<LabelledModel>,
    unknown: Seq<ItemModel>,
    it: ItemModel,
) -> (Seq<LabelledModel>, Seq<ItemModel>) {
    if has_repo_match(ls, it.full_repository_name) {
        let i = first_repo_match(ls, it.full_repository_name);
        (
            ls.update(
                i,
                LabelledModel { name: ls[i].name, repos: ls[i].repos, items: ls[i].items.push(it) },
            ),
            unknown,
        )
    } else {
        (ls, unknown.push(it))
    }
}

/// Matches every item in order.
pub open spec fn match_items_model(
    ls: Seq<LabelledModel>,
    unknown: Seq<ItemModel>,
    items: Seq<ItemModel>,
) -> (Seq<LabelledModel>, Seq<ItemModel>)
    decreases items.len(),
{
    if items.len() == 0 {
        (ls, unknown)
    } else {
        let s1 = match_step(ls, unknown, items[0]);
        match_items_model(s1.0, s1.1, items.drop_first())
    }
}

/// Files each item under the first label whose repository list covers the
/// item's repository; items no label covers are returned as unknown, in
/// order.
#[verifier::loop_isolation(false)]
pub fn match_items_with_labels(
    labelled_items: &mut Vec<LabelledItem>,
    items: &Vec<Item>,
) -> (unknown: Vec<Item>)
    ensures
        (final(labelled_items).deep_view(), unknown.deep_view()) == match_items_model(
            old(labelled_items).deep_view(),
            Seq::empty(),
            items.deep_view(),
        ),
{
    let ghost dv = items.deep_view();
    let ghost total = match_items_model(labelled_items.deep_view(), Seq::empty(), dv);
    let mut unknown: Vec<Item> = Vec::new();
    proof {
        assert(dv.skip(0) =~= dv);
        assert(unknown.deep_view() =~= Seq::<ItemModel>::empty());
    }
    let mut i: usize = 0;
    while i < items.len()
        invariant
            0 <= i <= items.len(),
            match_items_model(
                labelled_items.deep_view(),
                unknown.deep_view(),
                dv.skip(i as int),
            ) == total,
        decreases items.len() - i,
    {
        let ghost ls = labelled_items.deep_view();
        let ghost u0 = unknown.deep_view();
        let ghost it = dv[i as int];
        proof {
            assert(items@[i as int]@ == it);
            assert(dv.skip(i as int)[0] == it);
            assert(dv.skip(i as int).drop_first() =~= dv.skip(i as int + 1));
            lemma_first_repo_match(ls, it.full_repository_name);
        }
        let mut j: usize = 0;
        let mut found: bool = false;
        while j < labelled_items.len() && !found
            invariant
                0 <= j <= labelled_items.len(),
                forall|k: int| 0 <= k < j ==> !ls[k].repos.contains(it.full_repository_name),
                found ==> j < labelled_items.len() && ls[j as int].repos.contains(
                    it.full_repository_name,
                ),
                labelled_items.deep_view() == ls,
            decreases labelled_items.len() - j + (if found {
                0int
            } else {
                1int
            }),
        {
            proof {
                assert(ls[j as int].repos == labelled_items@[j as int].repos.deep_view());
            }
            if contains_string(&labelled_items[j].repos, &items[i].full_repository_name) {
                found = true;
            } else {
                j = j + 1;
            }
        }
        if found {
            proof {
                assert(has_repo_match(ls, it.full_repository_name)) by {
                    lemma_first_repo_match(ls, it.full_repository_name);
                }
                lemma_first_repo_match(ls, it.full_repository_name);
                let fi = first_repo_match(ls, it.full_repository_name);
                if fi < j as int {
                    assert(!ls[fi].repos.contains(it.full_repository_name));
                }
                if (j as int) < fi {
                    assert(!ls[j as int].repos.contains(it.full_repository_name));
                }
                assert(fi == j as int);
            }
            let mut entry = labelled_items.remove(j);
            let ghost entry0 = entry@;
            proof {
                assert(entry0 == ls[j as int]);
            }
            entry.items.push(items[i].duplicate());
            proof {
                assert(entry.items.deep_view() =~= entry0.items.push(it));
            }
            labelled_items.insert(j, entry);
            proof {
                assert(labelled_items.deep_view() =~= match_step(ls, u0, it).0);
            }
        } else {
            unknown.push(items[i].duplicate());
            proof {
                assert(!has_repo_match(ls, it.full_repository_name)) by {
                    lemma_first_repo_match(ls, it.full_repository_name);
                }
                assert(unknown.deep_view() =~= u0.push(it));
            }
        }
        i = i + 1;
    }
    proof {
        assert(dv.skip(dv.len() as int) =~= Seq::<ItemModel>::empty());
    }
    unknown
}

/// Strict lexicographic order on texts, by character code points.  For the
/// ASCII definition lines built here it coincides with the byte order in
/// which string sorting arranges them.
pub open spec fn lex_lt(a: Seq<char>, b: Seq<char>) -> bool
    decreases a.len(),
{
    b.len() > 0 && (a.len() == 0 || (a[0] as u32) < (b[0] as u32) || (a[0] == b[0] && lex_lt(
        a.drop_first(),
        b.drop_first(),
    )))
}

/// Decides `lex_lt`, character by character.
fn lex_less(a: &str, b: &str) -> (r: bool)
    ensures
        r == lex_lt(a@, b@),
{
    let an = a.unicode_len();
    let bn = b.unicode_len();
    let mut i: usize = 0;
    proof {
        assert(a@.skip(0) =~= a@);
        assert(b@.skip(0) =~= b@);
    }
    while i < an && i < bn
        invariant
            0 <= i <= an,
            0 <= i <= bn,
            an == a@.len(),
            bn == b@.len(),
            lex_lt(a@, b@) == lex_lt(a@.skip(i as int), b@.skip(i as int)),
        decreases an - i,
    {
        let ca = a.get_char(i);
        let cb = b.get_char(i);
        if ca as u32 != cb as u32 {
            let res = (ca as u32) < (cb as u32);
            proof {
                assert(a@.skip(i as int)[0] == a@[i as int]);
                assert(b@.skip(i as int)[0] == b@[i as int]);
                assert(lex_lt(a@.skip(i as int), b@.skip(i as int)) == res);
            }
            return res;
        }
        proof {
            assert(a@.skip(i as int)[0] == a@[i as int]);
            assert(b@.skip(i as int)[0] == b@[i as int]);
            assert(a@.skip(i as int).drop_first() =~= a@.skip(i as int + 1));
            assert(b@.skip(i as int).drop_first() =~= b@.skip(i as int + 1));
            assert(lex_lt(a@.skip(i as int), b@.skip(i as int)) == lex_lt(
                a@.skip(i as int + 1),
                b@.skip(i as int + 1),
            ));
        }
        i = i + 1;
    }
    proof {
        assert(lex_lt(a@.skip(i as int), b@.skip(i as int)) == (an < bn));
    }
    an < bn
}

/// Inserts `x` into a sorted list of distinct entries: before the first
/// larger entry, and not at all when already present.
pub open spec fn sorted_insert(l: Seq<Seq<char>>, x: Seq<char>) -> Seq<Seq<char>>
    decreases l.len(),
{
    if l.len() == 0 {
        seq![x]
    } else if x == l[0] {
        l
    } else if lex_lt(x, l[0]) {
        seq![x] + l
    } else {
        seq![l[0]] + sorted_insert(l.drop_first(), x)
    }
}

/// The distinct entries of `s`, in ascending lexicographic order.
pub open spec fn sort_dedup(s: Seq<Seq<char>>) -> Seq<Seq<char>>
    decreases s.len(),
{
    if s.len() == 0 {
        Seq::empty()
    } else {
        sorted_insert(sort_dedup(s.drop_last()), s.last())
    }
}

/// Any two texts are equal or ordered one way.
pub proof fn lemma_lex_lt_trichotomy(a: Seq<char>, b: Seq<char>)
    ensures
        a == b || lex_lt(a, b) || lex_lt(b, a),
    decreases a.len(),
{
    if a.len() == 0 && b.len() == 0 {
        assert(a =~= b);
    } else if a.len() > 0 && b.len() > 0 {
        if (a[0] as u32) < (b[0] as u32) || (b[0] as u32) < (a[0] as u32) {
        } else {
            assert(a[0] == b[0]) by {
                vstd::utf8::char_u32_cast(a[0], a[0] as u32);
                vstd::utf8::char_u32_cast(b[0], b[0] as u32);
            }
            lemma_lex_lt_trichotomy(a.drop_first(), b.drop_first());
            if a.drop_first() == b.drop_first() {
                assert(a.drop_first().len() == b.drop_first().len());
                assert(a.len() == b.len());
                assert forall|i: int| 0 <= i < a.len() implies a[i] == b[i] by {
                    if i > 0 {
                        assert(a.drop_first()[i - 1] == b.drop_first()[i - 1]);
                    }
                }
                assert(a =~= b);
            }
        }
    }
}

/// The order is irreflexive.
pub proof fn lemma_lex_lt_irreflexive(a: Seq<char>)
    ensures
        !lex_lt(a, a),
    decreases a.len(),
{
    if a.len() > 0 {
        lemma_lex_lt_irreflexive(a.drop_first());
    }
}

/// The order composes.
pub proof fn lemma_lex_lt_transitive(a: Seq<char>, b: Seq<char>, c: Seq<char>)
    requires
        lex_lt(a, b),
        lex_lt(b, c),
    ensures
        lex_lt(a, c),
    decreases a.len() + b.len() + c.len(),
{
    if a.len() > 0 {
        if a[0] == b[0] && b[0] == c[0] {
            lemma_lex_lt_transitive(a.drop_first(), b.drop_first(), c.drop_first());
        }
    }
}

/// Inserting into a strictly ascending list of texts yields a strictly
/// ascending list with the element added to its membership.
proof fn lemma_sorted_insert_correct(l: Seq<Seq<char>>, x: Seq<char>)
    requires
        forall|i: int, j: int| 0 <= i < j < l.len() ==> lex_lt(l[i], l[j]),
    ensures
        forall|i: int, j: int|
            0 <= i < j < sorted_insert(l, x).len() ==> lex_lt(
                sorted_insert(l, x)[i],
                sorted_insert(l, x)[j],
            ),
        forall|y: Seq<char>| #![trigger sorted_insert(l, x).contains(y)]
            sorted_insert(l, x).contains(y) <==> l.contains(y) || y == x,
    decreases l.len(),
{
    let r = sorted_insert(l, x);
    if l.len() == 0 {
        assert forall|y: Seq<char>| r.contains(y) implies l.contains(y) || y == x by {
            let k = choose|k: int| 0 <= k < r.len() && r[k] == y;
        }
        assert(r[0] == x);
    } else if x == l[0] {
        assert forall|y: Seq<char>| l.contains(y) || y == x implies r.contains(y) by {
            if y == x {
                assert(r[0] == y);
            }
        }
    } else if lex_lt(x, l[0]) {
        assert forall|i: int, j: int| 0 <= i < j < r.len() implies lex_lt(r[i], r[j]) by {
            if i == 0 {
                if j == 1 {
                    assert(r[j] == l[0]);
                } else {
                    lemma_lex_lt_transitive(x, l[0], l[j - 1]);
                }
            } else {
                assert(r[i] == l[i - 1] && r[j] == l[j - 1]);
            }
        }
        assert forall|y: Seq<char>| r.contains(y) implies l.contains(y) || y == x by {
            let k = choose|k: int| 0 <= k < r.len() && r[k] == y;
            if k > 0 {
                assert(l[k - 1] == y);
            }
        }
        assert forall|y: Seq<char>| l.contains(y) || y == x implies r.contains(y) by {
            if y == x {
                assert(r[0] == y);
            } else {
                let k = choose|k: int| 0 <= k < l.len() && l[k] == y;
                assert(r[k + 1] == y);
            }
        }
    } else {
        let rest = l.drop_first();
        assert(forall|i: int| 0 <= i < rest.len() ==> rest[i] == l[i + 1]);
        lemma_sorted_insert_correct(rest, x);
        let r2 = sorted_insert(rest, x);
        lemma_lex_lt_trichotomy(x, l[0]);
        assert(lex_lt(l[0], x));
        assert forall|i: int, j: int| 0 <= i < j < r.len() implies lex_lt(r[i], r[j]) by {
            if i == 0 {
                assert(r[j] == r2[j - 1]);
                assert(r2.contains(r2[j - 1]));
                if r2[j - 1] == x {
                } else {
                    assert(rest.contains(r2[j - 1]));
                    let k = choose|k: int| 0 <= k < rest.len() && rest[k] == r2[j - 1];
                    assert(lex_lt(l[0], l[k + 1]));
                }
            } else {
                assert(r[i] == r2[i - 1] && r[j] == r2[j - 1]);
            }
        }
        assert forall|y: Seq<char>| r.contains(y) implies l.contains(y) || y == x by {
            let k = choose|k: int| 0 <= k < r.len() && r[k] == y;
            if k == 0 {
                assert(l[0] == y);
            } else {
                assert(r2[k - 1] == y);
                assert(r2.contains(y));
                if rest.contains(y) {
                    let k2 = choose|k2: int| 0 <= k2 < rest.len() && rest[k2] == y;
                    assert(l[k2 + 1] == y);
                }
            }
        }
        assert forall|y: Seq<char>| l.contains(y) || y == x implies r.contains(y) by {
            if l.contains(y) {
                let k = choose|k: int| 0 <= k < l.len() && l[k] == y;
                if k == 0 {
                    assert(r[0] == y);
                } else {
                    assert(rest[k - 1] == y);
                    assert(rest.contains(y));
                    assert(r2.contains(y));
                    let k2 = choose|k2: int| 0 <= k2 < r2.len() && r2[k2] == y;
                    assert(r[k2 + 1] == y);
                }
            } else {
                assert(r2.contains(x)) by {
                    assert(sorted_insert(rest, x).contains(x) <==> rest.contains(x) || x == x);
                }
                let k2 = choose|k2: int| 0 <= k2 < r2.len() && r2[k2] == x;
                assert(r[k2 + 1] == x);
            }
        }
    }
}

/// The definition list is what its construction promises: strictly
/// ascending, without duplicates, and holding exactly the entries of its
/// input.
pub proof fn lemma_sort_dedup_correct(s: Seq<Seq<char>>)
    ensures
        forall|i: int, j: int|
            0 <= i < j < sort_dedup(s).len() ==> lex_lt(sort_dedup(s)[i], sort_dedup(s)[j]),
        forall|y: Seq<char>| sort_dedup(s).contains(y) <==> s.contains(y),
    decreases s.len(),
{
    if s.len() > 0 {
        let short = s.drop_last();
        lemma_sort_dedup_correct(short);
        lemma_sorted_insert_correct(sort_dedup(short), s.last());
        assert forall|y: Seq<char>| sort_dedup(s).contains(y) implies s.contains(y) by {
            if short.contains(y) {
                let k = choose|k: int| 0 <= k < short.len() && short[k] == y;
                assert(s[k] == y);
            } else {
                assert(s[s.len() - 1] == y);
            }
        }
        assert forall|y: Seq<char>| s.contains(y) implies sort_dedup(s).contains(y) by {
            let k = choose|k: int| 0 <= k < s.len() && s[k] == y;
            if k < s.len() - 1 {
                assert(short[k] == y);
                assert(short.contains(y));
            }
            assert(sorted_insert(sort_dedup(short), s.last()).contains(y) <==> sort_dedup(
                short,
            ).contains(y) || y == s.last());
        }
    }
}

/// Inserts a string into a sorted list of distinct strings.
#[verifier::loop_isolation(false)]
#[verifier::rlimit(50)]
fn insert_sorted(v: &mut Vec<String>, x: String)
    ensures
        final(v).deep_view() == sorted_insert(old(v).deep_view(), x@),
{
    let ghost l = v.deep_view();
    let ghost xv = x@;
    let mut p: usize = 0;
    proof {
        assert(l.subrange(0, 0) =~= Seq::<Seq<char>>::empty());
        assert(Seq::<Seq<char>>::empty() + sorted_insert(l.skip(0), xv) =~= sorted_insert(
            l.skip(0),
            xv,
        ));
        assert(l.skip(0) =~= l);
    }
    while p < v.len()
        invariant
            0 <= p <= v.len(),
            v.deep_view() == l,
            sorted_insert(l, xv) == l.subrange(0, p as int) + sorted_insert(l.skip(p as int), xv),
        decreases v.len() - p,
    {
        proof {
            assert(l.skip(p as int)[0] == l[p as int]);
            assert(l[p as int] == v@[p as int]@);
        }
        if v[p] == x {
            proof {
                assert(sorted_insert(l.skip(p as int), xv) == l.skip(p as int));
                assert(l.subrange(0, p as int) + l.skip(p as int) =~= l);
            }
            return ;
        }
        if lex_less(x.as_str(), v[p].as_str()) {
            v.insert(p, x);
            proof {
                assert(sorted_insert(l.skip(p as int), xv) == seq![xv] + l.skip(p as int));
                assert(v.deep_view() =~= l.subrange(0, p as int) + (seq![xv] + l.skip(p as int)));
            }
            return ;
        }
        proof {
            assert(l.skip(p as int).drop_first() =~= l.skip(p as int + 1));
            assert(sorted_insert(l.skip(p as int), xv) == seq![l[p as int]] + sorted_insert(
                l.skip(p as int + 1),
                xv,
            ));
            assert(l.subrange(0, p as int) + (seq![l[p as int]] + sorted_insert(
                l.skip(p as int + 1),
                xv,
            )) =~= l.subrange(0, p as int + 1) + sorted_insert(l.skip(p as int + 1), xv));
        }
        p = p + 1;
    }
    proof {
        assert(l.skip(l.len() as int) =~= Seq::<Seq<char>>::empty());
        assert(sorted_insert(Seq::<Seq<char>>::empty(), xv) =~= seq![xv]);
    }
    v.push(x);
    proof {
        assert(v.deep_view() =~= l.subrange(0, l.len() as int) + seq![xv]);
        assert(l.subrange(0, l.len() as int) =~= l);
    }
}

/// Joins parts with slashes.
pub open spec fn join_slash(parts: Seq<Seq<char>>) -> Seq<char>
    decreases parts.len(),
{
    if parts.len() == 0 {
        Seq::empty()
    } else if parts.len() == 1 {
        parts[0]
    } else {
        join_slash(parts.drop_last()) + "/"@ + parts.last()
    }
}

/// The nonempty parts, in order.
pub open spec fn nonempty_parts(parts: Seq<Seq<char>>) -> Seq<Seq<char>>
    decreases parts.len(),
{
    if parts.len() == 0 {
        Seq::empty()
    } else {
        let prev = nonempty_parts(parts.drop_last());
        if parts.last().len() > 0 {
            prev.push(parts.last())
        } else {
            prev
        }
    }
}

/// The owner part of a pull request's URL path.
pub open spec fn org_of_path(path: Seq<char>) -> Seq<char> {
    nonempty_parts(split_on(path, '/'))[0]
}

/// The repository part of a pull request's URL path.
pub open spec fn repo_of_path(path: Seq<char>) -> Seq<char> {
    nonempty_parts(split_on(path, '/'))[1]
}

/// A pull request's repository URL: its own URL with the final two
/// segments removed.
pub open spec fn repo_url_of(url: Seq<char>) -> Seq<char> {
    let ps = split_on(url, '/');
    if ps.len() >= 2 {
        join_slash(ps.subrange(0, ps.len() as int - 2))
    } else {
        Seq::empty()
    }
}

fn join_with_slash(v: &Vec<String>) -> (r: String)
    ensures
        r@ == join_slash(v.deep_view()),
{
    let ghost dv = v.deep_view();
    let mut r = String::new();
    proof {
        assert(dv.subrange(0, 0) =~= Seq::<Seq<char>>::empty());
    }
    let mut i: usize = 0;
    while i < v.len()
        invariant
            0 <= i <= v.len(),
            dv == v.deep_view(),
            r@ == join_slash(dv.subrange(0, i as int)),
        decreases v.len() - i,
    {
        proof {
            assert(dv.subrange(0, i + 1 as int).drop_last() =~= dv.subrange(0, i as int));
            assert(dv.subrange(0, i + 1 as int).last() == dv[i as int]);
            assert(dv[i as int] == v@[i as int]@);
        }
        if i > 0 {
            r.append("/");
        } else {
            proof {
                assert(Seq::<char>::empty() + dv[i as int] =~= dv[i as int]);
            }
        }
        r.append(v[i].as_str());
        i = i + 1;
    }
    proof {
        assert(dv.subrange(0, dv.len() as int) =~= dv);
    }
    r
}

fn nonempty_strings(v: &Vec<String>) -> (r: Vec<String>)
    ensures
        r.deep_view() == nonempty_parts(v.deep_view()),
{
    let ghost dv = v.deep_view();
    let mut r: Vec<String> = Vec::new();
    proof {
        assert(dv.subrange(0, 0) =~= Seq::<Seq<char>>::empty());
        assert(r.deep_view() =~= nonempty_parts(dv.subrange(0, 0)));
    }
    let mut i: usize = 0;
    while i < v.len()
        invariant
            0 <= i <= v.len(),
            dv == v.deep_view(),
            r.deep_view() == nonempty_parts(dv.subrange(0, i as int)),
        decreases v.len() - i,
    {
        let ghost r0 = r.deep_view();
        proof {
            assert(dv.subrange(0, i + 1 as int).drop_last() =~= dv.subrange(0, i as int));
            assert(dv.subrange(0, i + 1 as int).last() == dv[i as int]);
            assert(dv[i as int] == v@[i as int]@);
        }
        if !v[i].as_str().is_empty() {
            r.push(v[i].clone());
            proof {
                assert(r.deep_view() =~= r0.push(dv[i as int]));
            }
        }
        i = i + 1;
    }
    proof {
        assert(dv.subrange(0, dv.len() as int) =~= dv);
    }
    r
}

/// Builds one digest item from the plain parts of a fetched pull request:
/// its URL, the URL's path, and the issue fields.  The path must name an
/// owner and a repository.
pub fn item_from_issue_parts(
    url: String,
    path: String,
    number: String,
    title: String,
    state: String,
    user_login: String,
    user_url: String,
) -> (r: Item)
    requires
        nonempty_parts(split_on(path@, '/')).len() >= 2,
    ensures
        r@ == (ItemModel {
            issue_number: number@,
            issue_title: title@,
            issue_url: url@,
            organization_name: org_of_path(path@),
            repository_name: repo_of_path(path@),
            full_repository_name: org_of_path(path@) + "/"@ + repo_of_path(path@),
            repository_url: repo_url_of(url@),
            user_login: user_login@,
            user_url: user_url@,
            state: state@,
            merge_status: ItemMergeStatus::Unknown,
        }),
{
    let ghost ps = split_on(url@, '/');
    let mut url_parts = split_string(url.as_str(), '/');
    let _last = url_parts.pop();
    let _second_last = url_parts.pop();
    proof {
        if ps.len() >= 2 {
            assert(url_parts.deep_view() =~= ps.subrange(0, ps.len() as int - 2));
        } else {
            assert(url_parts.deep_view() =~= Seq::<Seq<char>>::empty());
            assert(join_slash(url_parts.deep_view()) =~= Seq::<char>::empty());
        }
    }
    let repository_url = join_with_slash(&url_parts);

    let path_parts_all = split_string(path.as_str(), '/');
    let path_parts = nonempty_strings(&path_parts_all);
    let organization_name = path_parts[0].clone();
    let repository_name = path_parts[1].clone();
    let mut full = organization_name.clone();
    full.append("/");
    full.append(repository_name.as_str());
    proof {
        assert(organization_name@ == org_of_path(path@)) by {
            assert(path_parts.deep_view()[0] == path_parts@[0]@);
        }
        assert(repository_name@ == repo_of_path(path@)) by {
            assert(path_parts.deep_view()[1] == path_parts@[1]@);
        }
    }

    Item {
        issue_number: number,
        issue_title: title,
        issue_url: url,
        organization_name,
        repository_name,
        full_repository_name: full,
        repository_url,
        user_login,
        user_url,
        state,
        merge_status: ItemMergeStatus::Unknown,
    }
}

/// Inserts an item into a list sorted by repository name, after every entry
/// whose name does not come later: insertion keeps equal names in arrival
/// order.
pub open spec fn insert_by_repo(l: Seq<ItemModel>, x: ItemModel) -> Seq<ItemModel>
    decreases l.len(),
{
    if l.len() == 0 {
        seq![x]
    } else if lex_lt(x.full_repository_name, l[0].full_repository_name) {
        seq![x] + l
    } else {
        seq![l[0]] + insert_by_repo(l.drop_first(), x)
    }
}

/// The items in ascending order of repository name, equal names kept in
/// their arrival order.
pub open spec fn sort_items_model(s: Seq<ItemModel>) -> Seq<ItemModel>
    decreases s.len(),
{
    if s.len() == 0 {
        Seq::empty()
    } else {
        insert_by_repo(sort_items_model(s.drop_last()), s.last())
    }
}

proof fn lemma_empty_item_multiset()
    ensures
        Seq::<ItemModel>::empty().to_multiset() =~= Multiset::<ItemModel>::empty(),
{
    broadcast use vstd::seq_lib::group_to_multiset_ensures;
    broadcast use vstd::multiset::group_multiset_axioms;

    assert forall|a: ItemModel| Seq::<ItemModel>::empty().to_multiset().count(a) == 0 by {
        assert(!Seq::<ItemModel>::empty().contains(a));
    }
}

proof fn lemma_singleton_item_multiset(x: ItemModel)
    ensures
        seq![x].to_multiset() =~= Multiset::<ItemModel>::empty().insert(x),
{
    broadcast use vstd::seq_lib::group_to_multiset_ensures;
    broadcast use vstd::multiset::group_multiset_axioms;

    lemma_empty_item_multiset();
    assert(Seq::<ItemModel>::empty().push(x) =~= seq![x]);
}

/// Inserting an item keeps the collection of items and the ascending key
/// order.
proof fn lemma_insert_by_repo_correct(l: Seq<ItemModel>, x: ItemModel)
    requires
        forall|i: int, j: int|
            0 <= i < j < l.len() ==> !lex_lt(l[j].full_repository_name, l[i].full_repository_name),
    ensures
        forall|i: int, j: int|
            0 <= i < j < insert_by_repo(l, x).len() ==> !lex_lt(
                insert_by_repo(l, x)[j].full_repository_name,
                insert_by_repo(l, x)[i].full_repository_name,
            ),
        insert_by_repo(l, x).to_multiset() =~= l.to_multiset().insert(x),
    decreases l.len(),
{
    broadcast use vstd::seq_lib::group_to_multiset_ensures;
    broadcast use vstd::multiset::group_multiset_axioms;

    let r = insert_by_repo(l, x);
    if l.len() == 0 {
        lemma_singleton_item_multiset(x);
        lemma_empty_item_multiset();
    } else if lex_lt(x.full_repository_name, l[0].full_repository_name) {
        assert forall|i: int, j: int| 0 <= i < j < r.len() implies !lex_lt(
            r[j].full_repository_name,
            r[i].full_repository_name,
        ) by {
            if i == 0 {
                assert(r[j] == l[j - 1]);
                if lex_lt(l[j - 1].full_repository_name, x.full_repository_name) {
                    lemma_lex_lt_transitive(
                        l[j - 1].full_repository_name,
                        x.full_repository_name,
                        l[0].full_repository_name,
                    );
                    if j == 1 {
                        lemma_lex_lt_irreflexive(l[0].full_repository_name);
                    }
                }
            } else {
                assert(r[i] == l[i - 1] && r[j] == l[j - 1]);
            }
        }
        lemma_singleton_item_multiset(x);
        vstd::seq_lib::lemma_multiset_commutative(seq![x], l);
        assert(r.to_multiset() =~= l.to_multiset().insert(x));
    } else {
        let rest = l.drop_first();
        assert(forall|i: int| 0 <= i < rest.len() ==> rest[i] == l[i + 1]);
        lemma_insert_by_repo_correct(rest, x);
        let r2 = insert_by_repo(rest, x);
        assert forall|i: int, j: int| 0 <= i < j < r.len() implies !lex_lt(
            r[j].full_repository_name,
            r[i].full_repository_name,
        ) by {
            if i == 0 {
                assert(r[j] == r2[j - 1]);
                assert(r2.contains(r2[j - 1]));
                assert(r2.to_multiset().count(r2[j - 1]) > 0);
                assert(rest.to_multiset().insert(x).count(r2[j - 1]) > 0);
                if r2[j - 1] == x {
                } else {
                    assert(rest.to_multiset().count(r2[j - 1]) > 0);
                    assert(rest.contains(r2[j - 1]));
                    let k = choose|k: int| 0 <= k < rest.len() && rest[k] == r2[j - 1];
                    assert(!lex_lt(l[k + 1].full_repository_name, l[0].full_repository_name));
                }
            } else {
                assert(r[i] == r2[i - 1] && r[j] == r2[j - 1]);
            }
        }
        lemma_singleton_item_multiset(l[0]);
        vstd::seq_lib::lemma_multiset_commutative(seq![l[0]], r2);
        vstd::seq_lib::lemma_multiset_commutative(seq![l[0]], rest);
        assert(seq![l[0]] + rest =~= l);
        assert(r.to_multiset() =~= l.to_multiset().insert(x));
    }
}

/// The sorted items are the same items: ascending by repository name, and
/// the same collection as the input.
pub proof fn lemma_sort_items_correct(s: Seq<ItemModel>)
    ensures
        forall|i: int, j: int|
            0 <= i < j < sort_items_model(s).len() ==> !lex_lt(
                sort_items_model(s)[j].full_repository_name,
                sort_items_model(s)[i].full_repository_name,
            ),
        sort_items_model(s).to_multiset() =~= s.to_multiset(),
    decreases s.len(),
{
    broadcast use vstd::seq_lib::group_to_multiset_ensures;
    broadcast use vstd::multiset::group_multiset_axioms;

    if s.len() == 0 {
    } else {
        let short = s.drop_last();
        lemma_sort_items_correct(short);
        lemma_insert_by_repo_correct(sort_items_model(short), s.last());
        assert(short.push(s.last()) =~= s);
        assert(short.push(s.last()).to_multiset() =~= short.to_multiset().insert(s.last()));
    }
}

#[verifier::loop_isolation(false)]
fn insert_item_sorted(v: &mut Vec<Item>, x: Item)
    ensures
        final(v).deep_view() == insert_by_repo(old(v).deep_view(), x@),
{
    let ghost l = v.deep_view();
    let ghost xv = x@;
    let mut p: usize = 0;
    proof {
        assert(l.subrange(0, 0) =~= Seq::<ItemModel>::empty());
        assert(Seq::<ItemModel>::empty() + insert_by_repo(l.skip(0), xv) =~= insert_by_repo(
            l.skip(0),
            xv,
        ));
        assert(l.skip(0) =~= l);
    }
    while p < v.len()
        invariant
            0 <= p <= v.len(),
            v.deep_view() == l,
            insert_by_repo(l, xv) == l.subrange(0, p as int) + insert_by_repo(l.skip(p as int), xv),
        decreases v.len() - p,
    {
        proof {
            assert(l.skip(p as int)[0] == l[p as int]);
            assert(l[p as int] == v@[p as int]@);
        }
        if lex_less(x.full_repository_name.as_str(), v[p].full_repository_name.as_str()) {
            v.insert(p, x);
            proof {
                assert(insert_by_repo(l.skip(p as int), xv) == seq![xv] + l.skip(p as int));
                assert(v.deep_view() =~= l.subrange(0, p as int) + (seq![xv] + l.skip(p as int)));
            }
            return ;
        }
        proof {
            assert(l.skip(p as int).drop_first() =~= l.skip(p as int + 1));
            assert(insert_by_repo(l.skip(p as int), xv) == seq![l[p as int]] + insert_by_repo(
                l.skip(p as int + 1),
                xv,
            ));
            assert(l.subrange(0, p as int) + (seq![l[p as int]] + insert_by_repo(
                l.skip(p as int + 1),
                xv,
            )) =~= l.subrange(0, p as int + 1) + insert_by_repo(l.skip(p as int + 1), xv));
        }
        p = p + 1;
    }
    proof {
        assert(l.skip(l.len() as int) =~= Seq::<ItemModel>::empty());
        assert(insert_by_repo(Seq::<ItemModel>::empty(), xv) =~= seq![xv]);
    }
    v.push(x);
    proof {
        assert(v.deep_view() =~= l.subrange(0, l.len() as int) + seq![xv]);
        assert(l.subrange(0, l.len() as int) =~= l);
    }
}

/// Sorts the items by repository name, keeping items of one repository in
/// their arrival order.
#[verifier::loop_isolation(false)]
pub fn sort_items_by_repo(items: Vec<Item>) -> (r: Vec<Item>)
    ensures
        r.deep_view() == sort_items_model(items.deep_view()),
{
    let ghost dv = items.deep_view();
    let mut r: Vec<Item> = Vec::new();
    proof {
        assert(r.deep_view() =~= sort_items_model(dv.subrange(0, 0)));
    }
    let mut i: usize = 0;
    while i < items.len()
        invariant
            0 <= i <= items.len(),
            r.deep_view() == sort_items_model(dv.subrange(0, i as int)),
        decreases items.len() - i,
    {
        proof {
            assert(dv.subrange(0, i + 1 as int).drop_last() =~= dv.subrange(0, i as int));
            assert(dv.subrange(0, i + 1 as int).last() == dv[i as int]);
            assert(items@[i as int]@ == dv[i as int]);
        }
        insert_item_sorted(&mut r, items[i].duplicate());
        i = i + 1;
    }
    proof {
        assert(dv.subrange(0, dv.len() as int) =~= dv);
    }
    r
}

/// The markdown link definition of an item's author.
pub open spec fn user_def(it: ItemModel) -> Seq<char> {
    "["@ + "@"@ + it.user_login + "]: "@ + it.user_url
}

/// The markdown link definition of an item's repository.
pub open spec fn repo_def(it: ItemModel) -> Seq<char> {
    "["@ + it.full_repository_name + "]: "@ + it.repository_url
}

/// The author definitions of a list of items, in order.
pub open spec fn user_defs(s: Seq<ItemModel>) -> Seq<Seq<char>> {
    Seq::new(s.len(), |i: int| user_def(s[i]))
}

/// The repository definitions of a list of items, in order.
pub open spec fn repo_defs(s: Seq<ItemModel>) -> Seq<Seq<char>> {
    Seq::new(s.len(), |i: int| repo_def(s[i]))
}

/// The markdown link definitions of the items: the distinct author
/// definitions in ascending order, then the distinct repository
/// definitions in ascending order.
#[verifier::loop_isolation(false)]
pub fn extract_definitions(items: &Vec<Item>) -> (r: Vec<String>)
    ensures
        r.deep_view() == sort_dedup(user_defs(items.deep_view())) + sort_dedup(
            repo_defs(items.deep_view()),
        ),
{
    let ghost dv = items.deep_view();
    let mut users: Vec<String> = Vec::new();
    let mut repos: Vec<String> = Vec::new();
    proof {
        assert(user_defs(dv.subrange(0, 0)) =~= Seq::<Seq<char>>::empty());
        assert(repo_defs(dv.subrange(0, 0)) =~= Seq::<Seq<char>>::empty());
        assert(users.deep_view() =~= sort_dedup(user_defs(dv.subrange(0, 0))));
        assert(repos.deep_view() =~= sort_dedup(repo_defs(dv.subrange(0, 0))));
    }
    let mut i: usize = 0;
    while i < items.len()
        invariant
            0 <= i <= items.len(),
            users.deep_view() == sort_dedup(user_defs(dv.subrange(0, i as int))),
            repos.deep_view() == sort_dedup(repo_defs(dv.subrange(0, i as int))),
        decreases items.len() - i,
    {
        proof {
            assert(items@[i as int]@ == dv[i as int]);
            assert(user_defs(dv.subrange(0, i + 1 as int)).drop_last() =~= user_defs(
                dv.subrange(0, i as int),
            ));
            assert(user_defs(dv.subrange(0, i + 1 as int)).last() == user_def(dv[i as int]));
            assert(repo_defs(dv.subrange(0, i + 1 as int)).drop_last() =~= repo_defs(
                dv.subrange(0, i as int),
            ));
            assert(repo_defs(dv.subrange(0, i + 1 as int)).last() == repo_def(dv[i as int]));
        }
        let mut ud = String::from_str("[");
        ud.append("@");
        ud.append(items[i].user_login.as_str());
        ud.append("]: ");
        ud.append(items[i].user_url.as_str());
        insert_sorted(&mut users, ud);

        let mut rd = String::from_str("[");
        rd.append(items[i].full_repository_name.as_str());
        rd.append("]: ");
        rd.append(items[i].repository_url.as_str());
        insert_sorted(&mut repos, rd);
        i = i + 1;
    }
    proof {
        assert(dv.subrange(0, dv.len() as int) =~= dv);
    }
    let mut r = users;
    r.append(&mut repos);
    r
}

/// The digest lines of a list of items, in order.
pub open spec fn items_lines(s: Seq<ItemModel>) -> Seq<Seq<char>> {
    Seq::new(s.len(), |i: int| format_item_model(s[i].user_login, s[i]))
}

/// The lines of the labelled sections, in order.  A label without items
/// produces nothing; a blank line separates one section from the one
/// before it (`later` says whether a section came before).
pub open spec fn label_sections(ls: Seq<LabelledModel>, later: bool) -> Seq<Seq<char>>
    decreases ls.len(),
{
    if ls.len() == 0 {
        Seq::empty()
    } else if ls[0].items.len() > 0 {
        (if later {
            seq![Seq::<char>::empty()]
        } else {
            Seq::empty()
        }) + seq![format_label_model(ls[0].name), Seq::<char>::empty()] + items_lines(ls[0].items)
            + label_sections(ls.drop_first(), true)
    } else {
        label_sections(ls.drop_first(), later)
    }
}

/// The lines of the whole digest body: the labelled sections, then — when
/// any item matched no label — the section of unknown items.
pub open spec fn digest_lines_model(ls: Seq<LabelledModel>, unknown: Seq<ItemModel>) -> Seq<
    Seq<char>,
> {
    label_sections(ls, false) + (if unknown.len() > 0 {
        seq![Seq::<char>::empty(), "## Unknown"@, Seq::<char>::empty()] + items_lines(unknown)
    } else {
        Seq::empty()
    })
}

/// Renders the digest body: one section per label with items, then the
/// unknown items, with blank lines between sections.
#[verifier::loop_isolation(false)]
pub fn digest_lines(labels: &Vec<LabelledItem>, unknown: &Vec<Item>) -> (r: Vec<String>)
    ensures
        r.deep_view() == digest_lines_model(labels.deep_view(), unknown.deep_view()),
{
    let ghost lv = labels.deep_view();
    let mut r: Vec<String> = Vec::new();
    let mut later = false;
    proof {
        assert(lv.skip(0) =~= lv);
        assert(r.deep_view() + label_sections(lv, false) =~= label_sections(lv, false));
    }
    let mut i: usize = 0;
    while i < labels.len()
        invariant
            0 <= i <= labels.len(),
            r.deep_view() + label_sections(lv.skip(i as int), later) == label_sections(lv, false),
        decreases labels.len() - i,
    {
        let ghost r0 = r.deep_view();
        let ghost later0 = later;
        proof {
            assert(lv.skip(i as int)[0] == lv[i as int]);
            assert(lv.skip(i as int).drop_first() =~= lv.skip(i as int + 1));
            assert(labels@[i as int]@ == lv[i as int]);
        }
        if labels[i].items.len() > 0 {
            if later {
                r.push(String::new());
            }
            r.push(format_label(&labels[i]));
            r.push(String::new());
            let mut lines = format_items(&labels[i].items);
            proof {
                assert(lines.deep_view() =~= items_lines(lv[i as int].items));
            }
            r.append(&mut lines);
            later = true;
            proof {
                assert(r.deep_view() =~= r0 + ((if later0 {
                    seq![Seq::<char>::empty()]
                } else {
                    Seq::<Seq<char>>::empty()
                }) + seq![format_label_model(lv[i as int].name), Seq::<char>::empty()] + items_lines(
                    lv[i as int].items,
                )));
                assert(r.deep_view() + label_sections(lv.skip(i as int + 1), true) =~= r0
                    + label_sections(lv.skip(i as int), later0));
            }
        }
        i = i + 1;
    }
    proof {
        assert(lv.skip(lv.len() as int) =~= Seq::<LabelledModel>::empty());
        assert(r.deep_view() == label_sections(lv, false));
    }
    if unknown.len() > 0 {
        let ghost r1 = r.deep_view();
        r.push(String::new());
        r.push(String::from_str("## Unknown"));
        r.push(String::new());
        let mut lines = format_items(unknown);
        proof {
            assert(lines.deep_view() =~= items_lines(unknown.deep_view()));
        }
        r.append(&mut lines);
        proof {
            assert(r.deep_view() =~= r1 + (seq![
                Seq::<char>::empty(),
                "## Unknown"@,
                Seq::<char>::empty(),
            ] + items_lines(unknown.deep_view())));
        }
    }
    proof {
        assert(r.deep_view() =~= digest_lines_model(lv, unknown.deep_view()));
    }
    r
}

} // verus!
