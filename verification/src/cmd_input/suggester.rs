//! Completion candidates: what a candidate is, how candidates are ranked,
//! and how the entries of a directory become candidates for a path fragment.

use std::cmp::Ordering;

use itertools::Itertools;
use vstd::prelude::*;

use crate::chars::{
    chars_of, contains, contains_seq, lemma_lex_order, lex_lt, lex_order, starts_with,
    string_from_chars, Order,
};

verus! {

/// What a candidate names.
#[derive(PartialEq, Eq, Clone, Copy, Debug, Structural)]
pub enum SuggestionType {
    Directory,
    File,
    /// An executable found on the search path.
    PathExecutable,
}

/// A completion candidate: the text that would replace the word under the
/// cursor, whether that text continues what was typed, and what it names.
#[derive(Clone, Debug)]
pub struct Suggestion {
    pub replacement: String,
    pub is_prefix: bool,
    pub s_type: SuggestionType,
}

/// A candidate as plain values.
pub struct SuggestionView {
    pub replacement: Seq<char>,
    pub is_prefix: bool,
    pub s_type: SuggestionType,
}

impl View for Suggestion {
    type V = SuggestionView;

    open spec fn view(&self) -> SuggestionView {
        SuggestionView {
            replacement: self.replacement@,
            is_prefix: self.is_prefix,
            s_type: self.s_type,
        }
    }
}

impl DeepView for Suggestion {
    type V = SuggestionView;

    open spec fn deep_view(&self) -> SuggestionView {
        self@
    }
}

impl PartialEq for Suggestion {
    fn eq(&self, other: &Self) -> (equal: bool) {
        self.replacement == other.replacement && self.is_prefix == other.is_prefix && self.s_type
            == other.s_type
    }
}

impl vstd::std_specs::cmp::PartialEqSpecImpl for Suggestion {
    open spec fn obeys_eq_spec() -> bool {
        true
    }

    open spec fn eq_spec(&self, other: &Self) -> bool {
        self.replacement@ == other.replacement@ && self.is_prefix == other.is_prefix && self.s_type
            == other.s_type
    }
}

impl Eq for Suggestion {

}

/// Whether `a` ranks strictly before `b`: a candidate that continues what
/// was typed comes before one that only holds it somewhere, and among
/// candidates alike in that, the replacement texts decide in dictionary
/// order.
pub open spec fn precedes(a: SuggestionView, b: SuggestionView) -> bool {
    if a.is_prefix != b.is_prefix {
        a.is_prefix
    } else {
        lex_lt(a.replacement, b.replacement)
    }
}

/// Whether neither of `a` and `b` ranks before the other.
pub open spec fn same_rank(a: SuggestionView, b: SuggestionView) -> bool {
    a.is_prefix == b.is_prefix && a.replacement == b.replacement
}

/// The ranking is a strict total order on prefix flag and replacement text.
pub proof fn lemma_rank_order(a: SuggestionView, b: SuggestionView, c: SuggestionView)
    ensures
        !precedes(a, a),
        precedes(a, b) ==> !precedes(b, a),
        same_rank(a, b) <==> !precedes(a, b) && !precedes(b, a),
        precedes(a, b) && precedes(b, c) ==> precedes(a, c),
        !precedes(b, a) && !precedes(c, b) ==> !precedes(c, a),
{
    lemma_lex_order(a.replacement, b.replacement, c.replacement);
    lemma_lex_order(b.replacement, a.replacement, c.replacement);
    lemma_lex_order(c.replacement, b.replacement, a.replacement);
    lemma_lex_order(b.replacement, c.replacement, a.replacement);
    lemma_lex_order(c.replacement, a.replacement, b.replacement);
    lemma_lex_order(a.replacement, c.replacement, b.replacement);
}

impl Suggestion {
    /// Whether `self` ranks strictly before `other`.
    pub fn comes_before(&self, other: &Self) -> (before: bool)
        ensures
            before == precedes(self@, other@),
    {
        if self.is_prefix != other.is_prefix {
            self.is_prefix
        } else {
            let mine = chars_of(self.replacement.as_str());
            let theirs = chars_of(other.replacement.as_str());
            lex_order(&mine, &theirs) == Order::Before
        }
    }

    /// How `self` stands to `other` in the ranking.
    pub fn cmp(&self, other: &Self) -> (order: Ordering)
        ensures
            order == Ordering::Less <==> precedes(self@, other@),
            order == Ordering::Equal <==> same_rank(self@, other@),
            order == Ordering::Greater <==> precedes(other@, self@),
    {
        proof {
            lemma_rank_order(self@, other@, self@);
        }
        if self.comes_before(other) {
            Ordering::Less
        } else if other.comes_before(self) {
            Ordering::Greater
        } else {
            Ordering::Equal
        }
    }
}

/// Whether no item ranks before one that stands earlier.
pub open spec fn ranked(items: Seq<SuggestionView>) -> bool {
    forall|i: int, j: int|
        0 <= i < j < items.len() ==> !precedes(#[trigger] items[j], #[trigger] items[i])
}

/// In a ranked list the candidates that continue what was typed come
/// first, and candidates alike in that stand in dictionary order of their
/// replacement texts.
pub proof fn lemma_ranked_order(items: Seq<SuggestionView>, i: int, j: int)
    requires
        ranked(items),
        0 <= i < j < items.len(),
    ensures
        items[j].is_prefix ==> items[i].is_prefix,
        items[i].is_prefix == items[j].is_prefix ==> items[i].replacement == items[j].replacement
            || lex_lt(items[i].replacement, items[j].replacement),
{
    lemma_rank_order(items[i], items[j], items[i]);
    lemma_lex_order(items[i].replacement, items[j].replacement, items[i].replacement);
}

/// The test for being of one rank with `x`.
pub open spec fn rank_of(x: SuggestionView) -> spec_fn(SuggestionView) -> bool {
    |s: SuggestionView| same_rank(s, x)
}

/// Whether `sorted` holds exactly the items of `items`, in rank order, with
/// items of one rank in the order they have in `items`.
pub open spec fn is_ranking_of(sorted: Seq<SuggestionView>, items: Seq<SuggestionView>) -> bool {
    &&& ranked(sorted)
    &&& sorted.to_multiset() == items.to_multiset()
    &&& forall|x: SuggestionView| #[trigger]
        sorted.filter(rank_of(x)) == items.filter(rank_of(x))
}

/// The items of one rank with `x` in a list that ends with an item of that
/// rank end with that item, and before it are those of the list without it.
proof fn lemma_filter_last(items: Seq<SuggestionView>, x: SuggestionView)
    requires
        items.len() > 0,
    ensures
        items.filter(rank_of(x)) == if same_rank(items.last(), x) {
            items.drop_last().filter(rank_of(x)).push(items.last())
        } else {
            items.drop_last().filter(rank_of(x))
        },
{
    reveal(Seq::filter);
}

/// A list of items has one ranking: two lists that both hold its items in
/// rank order, those of one rank in the order they have in the list, are
/// the same list.
pub proof fn lemma_ranking_unique(
    one: Seq<SuggestionView>,
    other: Seq<SuggestionView>,
    items: Seq<SuggestionView>,
)
    requires
        is_ranking_of(one, items),
        is_ranking_of(other, items),
    ensures
        one == other,
    decreases one.len(),
{
    broadcast use vstd::seq_lib::group_to_multiset_ensures;

    assert(one.len() == other.len()) by {
        assert(one.to_multiset().len() == other.to_multiset().len());
    }
    if one.len() == 0 {
        assert(one =~= other);
    } else {
        let a = one.last();
        let b = other.last();
        let n = one.len() as int;
        // Both last items are of the highest rank that occurs.
        assert(one.to_multiset().count(b) > 0) by {
            assert(other.contains(b));
            assert(other.to_multiset().count(b) > 0);
        }
        assert(one.contains(b));
        let i = choose|i: int| 0 <= i < one.len() && one[i] == b;
        assert(!precedes(a, b)) by {
            if i < n - 1 {
                assert(!precedes(one[n - 1], one[i]));
            } else {
                lemma_rank_order(a, a, a);
            }
        }
        assert(other.to_multiset().count(a) > 0) by {
            assert(one.contains(a));
            assert(one.to_multiset().count(a) > 0);
        }
        assert(other.contains(a));
        let j = choose|j: int| 0 <= j < other.len() && other[j] == a;
        assert(!precedes(b, a)) by {
            if j < n - 1 {
                assert(!precedes(other[n - 1], other[j]));
            } else {
                lemma_rank_order(b, b, b);
            }
        }
        lemma_rank_order(a, b, a);
        assert(same_rank(a, b));
        // Of the items of that rank each list holds the same one last.
        lemma_filter_last(one, a);
        lemma_filter_last(other, a);
        assert(one.filter(rank_of(a)) == other.filter(rank_of(a)));
        assert(one.filter(rank_of(a)).last() == a);
        assert(other.filter(rank_of(a)).last() == b);
        assert(a == b);
        // Without it the lists are rankings of one list still.
        let shorter = one.drop_last();
        let other_shorter = other.drop_last();
        assert(shorter =~= one.remove(n - 1));
        assert(other_shorter =~= other.remove(n - 1));
        assert(shorter.to_multiset() == other_shorter.to_multiset());
        assert forall|x: SuggestionView| #[trigger]
            shorter.filter(rank_of(x)) == other_shorter.filter(rank_of(x)) by {
            lemma_filter_last(one, x);
            lemma_filter_last(other, x);
            assert(one.filter(rank_of(x)) == items.filter(rank_of(x)));
            assert(other.filter(rank_of(x)) == items.filter(rank_of(x)));
            if same_rank(a, x) {
                assert(shorter.filter(rank_of(x)) =~= one.filter(rank_of(x)).drop_last());
                assert(other_shorter.filter(rank_of(x)) =~= other.filter(rank_of(x)).drop_last());
            }
        }
        assert(ranked(shorter)) by {
            assert forall|p: int, q: int| 0 <= p < q < shorter.len() implies !precedes(
                #[trigger] shorter[q],
                #[trigger] shorter[p],
            ) by {
                assert(shorter[q] == one[q] && shorter[p] == one[p]);
            }
        }
        assert(ranked(other_shorter)) by {
            assert forall|p: int, q: int| 0 <= p < q < other_shorter.len() implies !precedes(
                #[trigger] other_shorter[q],
                #[trigger] other_shorter[p],
            ) by {
                assert(other_shorter[q] == other[q] && other_shorter[p] == other[p]);
            }
        }
        lemma_ranking_unique(shorter, other_shorter, shorter);
        assert(one =~= shorter.push(a));
        assert(other =~= other_shorter.push(b));
    }
}

/// An item that ranks before another ranks before all that do not rank
/// before that other.
proof fn lemma_precedes_later(x: SuggestionView, a: SuggestionView, b: SuggestionView)
    requires
        precedes(x, a),
        !precedes(b, a),
    ensures
        precedes(x, b),
{
    lemma_rank_order(a, b, x);
}

/// Putting `x` behind the items that do not rank after it keeps a ranking a
/// ranking, now of the items with `x` added at their end.
proof fn lemma_insert_keeps_ranking(
    sorted: Seq<SuggestionView>,
    items: Seq<SuggestionView>,
    x: SuggestionView,
    at: int,
)
    requires
        is_ranking_of(sorted, items),
        0 <= at <= sorted.len(),
        forall|i: int| 0 <= i < at ==> !precedes(x, #[trigger] sorted[i]),
        at < sorted.len() ==> precedes(x, sorted[at]),
    ensures
        is_ranking_of(sorted.insert(at, x), items.push(x)),
{
    broadcast use vstd::seq_lib::group_to_multiset_ensures;

    let grown = sorted.insert(at, x);
    let head = sorted.take(at);
    let tail = sorted.skip(at);
    assert(grown =~= head + seq![x] + tail);
    assert(sorted =~= head + tail);
    assert forall|j: int| at <= j < sorted.len() implies precedes(x, #[trigger] sorted[j]) by {
        lemma_precedes_later(x, sorted[at], sorted[j]);
    }
    assert forall|i: int, j: int| 0 <= i < j < grown.len() implies !precedes(
        #[trigger] grown[j],
        #[trigger] grown[i],
    ) by {
        if j == at {
            assert(grown[i] == sorted[i]);
        } else if i == at {
            assert(grown[j] == sorted[j - 1]);
            lemma_rank_order(x, sorted[j - 1], x);
        } else {
            let from = if i < at { i } else { i - 1 };
            let to = if j < at { j } else { j - 1 };
            assert(grown[i] == sorted[from]);
            assert(grown[j] == sorted[to]);
        }
    }
    assert(grown.to_multiset() =~= items.push(x).to_multiset());
    assert forall|y: SuggestionView| #[trigger]
        grown.filter(rank_of(y)) == items.push(x).filter(rank_of(y)) by {
        let pred = rank_of(y);
        Seq::filter_distributes_over_add(head + seq![x], tail, pred);
        Seq::filter_distributes_over_add(head, seq![x], pred);
        Seq::filter_distributes_over_add(head, tail, pred);
        items.lemma_filter_push(x, pred);
        Seq::<SuggestionView>::empty().lemma_filter_push(x, pred);
        assert(Seq::<SuggestionView>::empty().push(x) =~= seq![x]);
        assert(Seq::<SuggestionView>::empty().filter(pred) =~= Seq::<SuggestionView>::empty()) by {
            reveal(Seq::filter);
        }
        assert(sorted.filter(pred) == items.filter(pred));
        if same_rank(x, y) {
            assert forall|j: int| 0 <= j < tail.len() implies !pred(#[trigger] tail[j]) by {
                assert(tail[j] == sorted[at + j]);
                lemma_rank_order(x, sorted[at + j], x);
            }
            assert(tail.all(|s: SuggestionView| !pred(s)));
            tail.lemma_all_neg_filter_empty(pred);
            assert(tail.filter(pred) =~= Seq::<SuggestionView>::empty());
            assert(grown.filter(pred) =~= sorted.filter(pred).push(x));
        } else {
            assert(grown.filter(pred) =~= sorted.filter(pred));
        }
    }
}

/// The first place in `sorted` whose item `next` ranks before, or the end.
fn insertion_point(sorted: &Vec<Suggestion>, next: &Suggestion) -> (at: usize)
    ensures
        at <= sorted.len(),
        forall|i: int| 0 <= i < at ==> !precedes(next@, #[trigger] sorted.deep_view()[i]),
        at < sorted.len() ==> precedes(next@, sorted.deep_view()[at as int]),
{
    let mut at: usize = 0;
    while at < sorted.len() && !next.comes_before(&sorted[at])
        invariant
            at <= sorted.len(),
            forall|i: int| 0 <= i < at ==> !precedes(next@, #[trigger] sorted.deep_view()[i]),
        decreases sorted.len() - at,
    {
        at += 1;
    }
    at
}

/// Puts candidates in rank order; candidates of one rank keep their order.
pub fn rank_suggestions(suggestions: Vec<Suggestion>) -> (sorted: Vec<Suggestion>)
    ensures
        is_ranking_of(sorted.deep_view(), suggestions.deep_view()),
{
    let ghost items = suggestions.deep_view();
    let mut rest = suggestions;
    let mut sorted: Vec<Suggestion> = Vec::new();
    let ghost mut done: Seq<SuggestionView> = Seq::empty();
    assert(sorted.deep_view() =~= done);
    assert(done + rest.deep_view() =~= items);
    while rest.len() > 0
        invariant
            done + rest.deep_view() == items,
            is_ranking_of(sorted.deep_view(), done),
        decreases rest.len(),
    {
        let ghost before = sorted.deep_view();
        let ghost waiting = rest.deep_view();
        let next = rest.remove(0);
        let at = insertion_point(&sorted, &next);
        proof {
            lemma_insert_keeps_ranking(before, done, next@, at as int);
        }
        sorted.insert(at, next);
        proof {
            assert(sorted.deep_view() =~= before.insert(at as int, next@));
            assert(rest.deep_view() =~= waiting.skip(1));
            assert(done.push(next@) + rest.deep_view() =~= done + waiting);
            done = done.push(next@);
        }
    }
    assert(done =~= items);
    sorted
}

/// Sorts with `Itertools::sorted_by`, which collects the items, sorts them
/// with the stable `slice::sort_by` under the comparison it is handed, and
/// gives them back in that order. The comparison handed over is the ranking,
/// which is a total order; the contract claims that the result is the stable
/// ranking of the items.
#[verifier::external_body]
fn sorted_by_rank(suggestions: Vec<Suggestion>) -> (sorted: Vec<Suggestion>)
    ensures
        is_ranking_of(sorted.deep_view(), suggestions.deep_view()),
{
    suggestions.into_iter().sorted_by(|a, b| a.cmp(b)).collect()
}

/// What listing a directory tells of one entry: its name, and whether it is
/// itself a directory.
#[derive(Clone, Debug)]
pub struct FileEntry {
    pub file_name: String,
    pub is_dir: bool,
}

/// A directory entry as plain values.
pub struct FileEntryView {
    pub file_name: Seq<char>,
    pub is_dir: bool,
}

impl View for FileEntry {
    type V = FileEntryView;

    open spec fn view(&self) -> FileEntryView {
        FileEntryView { file_name: self.file_name@, is_dir: self.is_dir }
    }
}

impl DeepView for FileEntry {
    type V = FileEntryView;

    open spec fn deep_view(&self) -> FileEntryView {
        self@
    }
}

/// What an entry names.
pub open spec fn kind_of(is_dir: bool) -> SuggestionType {
    if is_dir {
        SuggestionType::Directory
    } else {
        SuggestionType::File
    }
}

/// The name of an entry as a candidate shows it: a directory's name is
/// followed by a slash.
pub open spec fn shown_name(entry: FileEntryView) -> Seq<char> {
    if entry.is_dir {
        entry.file_name.push('/')
    } else {
        entry.file_name
    }
}

/// The candidate that `entry` gives for the fragment `search` in the
/// directory written as `path`. An entry is a candidate if its name holds the
/// fragment anywhere; the candidate is a prefix match if the shown name
/// starts with the fragment.
pub open spec fn candidate(entry: FileEntryView, path: Seq<char>, search: Seq<char>) -> Option<
    SuggestionView,
> {
    if contains_seq(entry.file_name, search) {
        Some(
            SuggestionView {
                replacement: path + shown_name(entry),
                is_prefix: search.is_prefix_of(shown_name(entry)),
                s_type: kind_of(entry.is_dir),
            },
        )
    } else {
        None
    }
}

/// `candidate` for a fixed directory and fragment.
pub open spec fn candidate_in(path: Seq<char>, search: Seq<char>) -> spec_fn(FileEntryView) -> Option<
    SuggestionView,
> {
    |entry: FileEntryView| candidate(entry, path, search)
}

/// The candidates that the entries give, in the order of the entries.
pub open spec fn candidates(entries: Seq<FileEntryView>, path: Seq<char>, search: Seq<char>) -> Seq<
    SuggestionView,
> {
    entries.filter_map(candidate_in(path, search))
}

/// Whether `dir` and `fragment` are the two parts of `prefix` on either side
/// of its last slash: `dir` ends with that slash, or is empty where `prefix`
/// has none, and `fragment` is what follows.
pub open spec fn is_split_at_last_slash(prefix: Seq<char>, dir: Seq<char>, fragment: Seq<char>) -> bool {
    &&& dir + fragment == prefix
    &&& !fragment.contains('/')
    &&& dir.len() == 0 || dir.last() == '/'
}

/// A text has one split at its last slash.
pub proof fn lemma_split_is_unique(
    prefix: Seq<char>,
    dir: Seq<char>,
    fragment: Seq<char>,
    other_dir: Seq<char>,
    other_fragment: Seq<char>,
)
    requires
        is_split_at_last_slash(prefix, dir, fragment),
        is_split_at_last_slash(prefix, other_dir, other_fragment),
    ensures
        dir == other_dir,
        fragment == other_fragment,
{
    let a = dir.len() as int;
    let b = other_dir.len() as int;
    let whole = dir + fragment;
    let other_whole = other_dir + other_fragment;
    assert(whole == other_whole);
    assert(whole.len() == a + fragment.len());
    assert(other_whole.len() == b + other_fragment.len());
    if a < b {
        assert(other_whole[b - 1] == other_dir[b - 1]);
        assert(whole[b - 1] == fragment[b - 1 - a]);
        assert(fragment.contains(fragment[b - 1 - a]));
    }
    if b < a {
        assert(whole[a - 1] == dir[a - 1]);
        assert(other_whole[a - 1] == other_fragment[a - 1 - b]);
        assert(other_fragment.contains(other_fragment[a - 1 - b]));
    }
    assert(dir =~= prefix.take(a));
    assert(other_dir =~= prefix.take(b));
    assert(fragment =~= prefix.skip(a));
    assert(other_fragment =~= prefix.skip(b));
}

/// A text that ends with a slash names a directory to search as a whole:
/// its split is the text itself and the empty fragment.
pub proof fn lemma_directory_prefix(prefix: Seq<char>)
    requires
        prefix.len() > 0,
        prefix.last() == '/',
    ensures
        is_split_at_last_slash(prefix, prefix, Seq::empty()),
{
    assert(prefix + Seq::<char>::empty() =~= prefix);
}

impl SuggestionType {
    /// What an entry names, told from whether it is a directory.
    pub fn from_is_dir(is_dir: bool) -> (kind: Self)
        ensures
            kind == kind_of(is_dir),
    {
        if is_dir {
            SuggestionType::Directory
        } else {
            SuggestionType::File
        }
    }
}

/// Splits what was typed into the directory to search and the fragment to
/// search for. A text that ends with a slash names the directory itself, and
/// the fragment is empty.
pub fn get_search_params(prefix: &str) -> (params: (String, String))
    ensures
        is_split_at_last_slash(prefix@, params.0@, params.1@),
{
    let text = chars_of(prefix);
    let mut cut: usize = text.len();
    while cut > 0 && text[cut - 1] != '/'
        invariant
            cut <= text.len(),
            forall|i: int| cut <= i < text.len() ==> text@[i] != '/',
        decreases cut,
    {
        cut -= 1;
    }
    let dir = prefix.substring_char(0, cut);
    let fragment = prefix.substring_char(cut, text.len());
    assert(dir@ + fragment@ =~= prefix@);
    (dir.to_owned(), fragment.to_owned())
}

/// Whether the directory written as `path` is the current one: the empty
/// path and `./` are.
pub fn is_current_dir(path: &str) -> (current: bool)
    ensures
        current == (path@.len() == 0 || path@ == seq!['.', '/']),
{
    let text = chars_of(path);
    if text.len() == 0 {
        true
    } else if text.len() == 2 {
        let current = text[0] == '.' && text[1] == '/';
        assert(current ==> text@ =~= seq!['.', '/']);
        current
    } else {
        false
    }
}

/// `get_suggestion_from_file` on texts already split into characters.
fn candidate_from(entry: &FileEntry, path: &Vec<char>, search: &Vec<char>) -> (found: Option<
    Suggestion,
>)
    ensures
        found.is_some() == candidate(entry@, path@, search@).is_some(),
        found.is_some() ==> found.unwrap()@ == candidate(entry@, path@, search@).unwrap(),
{
    let mut shown = chars_of(entry.file_name.as_str());
    if contains(&shown, search) {
        if entry.is_dir {
            shown.push('/');
        }
        let is_prefix = starts_with(&shown, search);
        let mut replacement = path.clone();
        replacement.append(&mut shown);
        assert(replacement@ =~= path@ + shown_name(entry@));
        Some(
            Suggestion {
                replacement: string_from_chars(&replacement),
                is_prefix,
                s_type: SuggestionType::from_is_dir(entry.is_dir),
            },
        )
    } else {
        None
    }
}

/// The candidate that a directory entry gives for the fragment `search_str`
/// in the directory written as `path`, if its name holds the fragment.
pub fn get_suggestion_from_file(entry: &FileEntry, path: &str, search_str: &str) -> (found: Option<
    Suggestion,
>)
    ensures
        found.is_some() == candidate(entry@, path@, search_str@).is_some(),
        found.is_some() ==> found.unwrap()@ == candidate(entry@, path@, search_str@).unwrap(),
{
    let path = chars_of(path);
    let search = chars_of(search_str);
    candidate_from(entry, &path, &search)
}

/// The candidates among the entries of the directory written as `path`, in
/// rank order.
pub fn suggestions_in(entries: &Vec<FileEntry>, path: &str, search_str: &str) -> (found: Vec<
    Suggestion,
>)
    ensures
        is_ranking_of(found.deep_view(), candidates(entries.deep_view(), path@, search_str@)),
{
    let path = chars_of(path);
    let search = chars_of(search_str);
    let ghost all = entries.deep_view();
    let ghost pick = candidate_in(path@, search@);
    let mut found: Vec<Suggestion> = Vec::new();
    let mut i: usize = 0;
    assert(found.deep_view() =~= all.take(0).filter_map(pick));
    while i < entries.len()
        invariant
            i <= entries.len(),
            all == entries.deep_view(),
            pick == candidate_in(path@, search@),
            found.deep_view() == all.take(i as int).filter_map(pick),
        decreases entries.len() - i,
    {
        let ghost before = found.deep_view();
        proof {
            all.lemma_filter_map_take_succ(pick, i as int);
            assert(all[i as int] == entries[i as int]@);
        }
        match candidate_from(&entries[i], &path, &search) {
            Some(suggestion) => {
                found.push(suggestion);
                assert(found.deep_view() =~= before + seq![suggestion@]);
            },
            None => {},
        }
        i += 1;
    }
    assert(all.take(entries.len() as int) =~= all);
    sorted_by_rank(found)
}

/// The candidates for a fragment, given what listing the directory gave. A
/// directory that could not be listed has no candidates.
pub fn get_suggestions(listing: Option<Vec<FileEntry>>, path: &str, search_str: &str) -> (found:
    Vec<Suggestion>)
    ensures
        match listing {
            Some(entries) => is_ranking_of(
                found.deep_view(),
                candidates(entries.deep_view(), path@, search_str@),
            ),
            None => found@.len() == 0,
        },
{
    match listing {
        Some(entries) => suggestions_in(&entries, path, search_str),
        None => Vec::new(),
    }
}

/// A source of completion candidates for a text fragment.
pub trait Suggester {
    /// The candidates for `prefix`. A source that cannot answer gives none.
    fn get_suggestions(&mut self, prefix: &str) -> Vec<Suggestion>;
}

} // verus!
