//! Cycling through ranked completion candidates.
//!
//! The handler asks every registered source for candidates, ranks what came
//! back, and then answers one request after another from that list, starting
//! over when it reaches the end, until it is told to ask again.

use vstd::prelude::*;

use crate::cmd_input::suggester::{
    is_ranking_of, rank_suggestions, ranked, Suggester, Suggestion, SuggestionView,
};

verus! {

/// Ranked candidates, and which of them the next request returns.
pub struct TabHandler {
    suggesters: Vec<Box<dyn Suggester>>,
    should_refresh: bool,
    cache: Vec<Suggestion>,
    position: usize,
}

/// The handler's state as plain values.
pub struct TabHandlerView {
    /// The candidates, in rank order.
    pub cache: Seq<SuggestionView>,
    /// The index in `cache` of the candidate that comes next.
    pub position: int,
    /// Whether the next request asks the sources again.
    pub should_refresh: bool,
}

impl TabHandlerView {
    /// The cache is ranked, and the position names one of its candidates
    /// unless there is none.
    pub open spec fn wf(self) -> bool {
        &&& ranked(self.cache)
        &&& 0 <= self.position
        &&& self.position < self.cache.len() || self.position == 0
    }

    /// The replacement that the cache gives next, if it holds any candidate.
    pub open spec fn current(self) -> Option<Seq<char>> {
        if self.cache.len() == 0 {
            None
        } else {
            Some(self.cache[self.position].replacement)
        }
    }

    /// The state after the cache has given one replacement: the position has
    /// moved on by one and starts over behind the last candidate.
    pub open spec fn advance(self) -> TabHandlerView {
        TabHandlerView {
            position: if self.cache.len() == 0 {
                0
            } else {
                (self.position + 1) % (self.cache.len() as int)
            },
            ..self
        }
    }

    /// The state after the cache has given `count` replacements.
    pub open spec fn advance_by(self, count: nat) -> TabHandlerView
        decreases count,
    {
        if count == 0 {
            self
        } else {
            self.advance_by((count - 1) as nat).advance()
        }
    }

    /// The state in which `cache` has just been put in place.
    pub open spec fn fresh(cache: Seq<SuggestionView>) -> TabHandlerView {
        TabHandlerView { cache, position: 0, should_refresh: false }
    }
}

/// One step of a walk round `len` places.
proof fn lemma_step(position: int, len: int)
    requires
        0 <= position < len,
    ensures
        (position + 1) % len == if position + 1 == len {
            0
        } else {
            position + 1
        },
{
    if position + 1 == len {
        vstd::arithmetic::div_mod::lemma_mod_self_0(len);
    } else {
        vstd::arithmetic::div_mod::lemma_small_mod((position + 1) as nat, len as nat);
    }
}

/// Whether `found` is the text `expected`, or both are absent.
pub open spec fn is_text(found: Option<String>, expected: Option<Seq<char>>) -> bool {
    match found {
        Some(text) => expected == Some(text@),
        None => expected is None,
    }
}

impl View for TabHandler {
    type V = TabHandlerView;

    closed spec fn view(&self) -> TabHandlerView {
        TabHandlerView {
            cache: self.cache.deep_view(),
            position: self.position as int,
            should_refresh: self.should_refresh,
        }
    }
}

/// Strings the answers of the sources together: the candidates of the first
/// answer in their order, then those of the second, and so on.
pub fn join_answers(answers: Vec<Vec<Suggestion>>) -> (all: Vec<Suggestion>)
    ensures
        all.deep_view() == answers.deep_view().flatten(),
{
    let ghost given = answers.deep_view();
    let mut rest = answers;
    let mut all: Vec<Suggestion> = Vec::new();
    assert(all.deep_view() + rest.deep_view().flatten() =~= given.flatten());
    while rest.len() > 0
        invariant
            all.deep_view() + rest.deep_view().flatten() == given.flatten(),
        decreases rest.len(),
    {
        let ghost joined = all.deep_view();
        let ghost waiting = rest.deep_view();
        let mut first = rest.remove(0);
        let ghost head = first.deep_view();
        all.append(&mut first);
        proof {
            assert(waiting.first() =~= head);
            assert(rest.deep_view() =~= waiting.drop_first());
            assert(all.deep_view() =~= joined + head);
            assert(waiting.flatten() == head + waiting.drop_first().flatten());
            assert(all.deep_view() + rest.deep_view().flatten() =~= joined + waiting.flatten());
        }
    }
    assert(rest.deep_view().flatten() =~= Seq::<SuggestionView>::empty());
    assert(all.deep_view() =~= given.flatten());
    all
}

impl TabHandler {
    #[verifier::type_invariant]
    spec fn well_formed(&self) -> bool {
        self@.wf()
    }

    /// The registered sources.
    pub closed spec fn suggesters(&self) -> Seq<Box<dyn Suggester>> {
        self.suggesters@
    }

    /// A handler over the given sources, which asks them on the first request.
    pub fn new(suggesters: Vec<Box<dyn Suggester>>) -> (handler: Self)
        ensures
            handler@ == (TabHandlerView { cache: Seq::empty(), position: 0, should_refresh: true }),
            handler.suggesters() == suggesters@,
    {
        let handler = TabHandler {
            suggesters,
            should_refresh: true,
            cache: Vec::new(),
            position: 0,
        };
        assert(handler.cache.deep_view() =~= Seq::empty());
        handler
    }

    /// Replaces the sources. What is cached stays.
    pub fn set_suggesters(&mut self, suggesters: Vec<Box<dyn Suggester>>)
        ensures
            final(self)@ == old(self)@,
            final(self).suggesters() == suggesters@,
    {
        proof {
            use_type_invariant(&*self);
        }
        self.suggesters = suggesters;
    }

    pub fn get_suggesters(&self) -> (suggesters: &Vec<Box<dyn Suggester>>)
        ensures
            suggesters@ == self.suggesters(),
    {
        &self.suggesters
    }

    /// Makes the next request ask the sources again.
    pub fn refresh(&mut self)
        ensures
            final(self)@ == (TabHandlerView { should_refresh: true, ..old(self)@ }),
            final(self).suggesters() == old(self).suggesters(),
    {
        proof {
            use_type_invariant(&*self);
        }
        self.should_refresh = true;
    }

    /// Ranks `found` and puts it in place as the cache, to be given out from
    /// its first candidate on.
    pub fn install(&mut self, found: Vec<Suggestion>)
        ensures
            is_ranking_of(final(self)@.cache, found.deep_view()),
            final(self)@ == TabHandlerView::fresh(final(self)@.cache),
            final(self)@.wf(),
            final(self).suggesters() == old(self).suggesters(),
    {
        proof {
            use_type_invariant(&*self);
        }
        let ranked = rank_suggestions(found);
        self.position = 0;
        self.cache = ranked;
        self.should_refresh = false;
    }

    /// Asks every source once, in the order they were registered, for its
    /// candidates for `prefix`. What a source answers is its own to decide.
    fn ask_sources(&mut self, prefix: &str) -> (answers: Vec<Vec<Suggestion>>)
        ensures
            final(self)@ == old(self)@,
            final(self).suggesters().len() == old(self).suggesters().len(),
            answers@.len() == old(self).suggesters().len(),
    {
        proof {
            use_type_invariant(&*self);
        }
        let mut answers: Vec<Vec<Suggestion>> = Vec::new();
        let mut i: usize = 0;
        while i < self.suggesters.len()
            invariant
                self@ == old(self)@,
                self@.wf(),
                self.suggesters@.len() == old(self).suggesters@.len(),
                i <= self.suggesters@.len(),
                answers@.len() == i,
            decreases self.suggesters.len() - i,
        {
            let answer = self.suggesters[i].get_suggestions(prefix);
            answers.push(answer);
            i += 1;
        }
        answers
    }

    /// Asks every source, in the order they were registered, for its
    /// candidates for `prefix`, and strings the answers together with
    /// `join_answers`. Without a source there is no answer.
    fn gather(&mut self, prefix: &str) -> (found: Vec<Suggestion>)
        ensures
            final(self)@ == old(self)@,
            final(self).suggesters().len() == old(self).suggesters().len(),
            old(self).suggesters().len() == 0 ==> found@.len() == 0,
    {
        let answers = self.ask_sources(prefix);
        let found = join_answers(answers);
        assert(found@.len() == found.deep_view().len());
        found
    }

    /// The replacement for the word `prefix`, or nothing if no source has a
    /// candidate.
    ///
    /// After `refresh`, and on the first request, every source is asked and
    /// what they answer is ranked into a new cache, which is read from its
    /// first candidate on. Otherwise the cache stands, whatever `prefix` is.
    /// Either way the request returns the candidate at the position and moves
    /// the position on, round the cache. What the sources answer is theirs to
    /// decide: `install` states what becomes of an answer. Where no source is
    /// registered the new cache is empty and the request returns nothing.
    pub fn get_suggestion(&mut self, prefix: &String) -> (found: Option<String>)
        ensures
            old(self)@.wf(),
            final(self)@.wf(),
            old(self)@.should_refresh && old(self).suggesters().len() == 0 ==> found is None
                && final(self)@.cache.len() == 0,
            !old(self)@.should_refresh ==> is_text(found, old(self)@.current()) && final(self)@
                == old(self)@.advance(),
            old(self)@.should_refresh ==> is_text(
                found,
                TabHandlerView::fresh(final(self)@.cache).current(),
            ) && final(self)@ == TabHandlerView::fresh(final(self)@.cache).advance(),
            final(self).suggesters().len() == old(self).suggesters().len(),
    {
        proof {
            use_type_invariant(&*self);
        }
        if self.should_refresh {
            let found = self.gather(prefix.as_str());
            let ghost answers = found.deep_view();
            self.install(found);
            proof {
                vstd::seq_lib::to_multiset_len(answers);
                vstd::seq_lib::to_multiset_len(self@.cache);
            }
        }
        self.next_cached()
    }

    /// Gives the next replacement from the cache as it stands, and moves on.
    pub fn next_cached(&mut self) -> (found: Option<String>)
        ensures
            old(self)@.wf(),
            is_text(found, old(self)@.current()),
            final(self)@ == old(self)@.advance(),
            final(self)@.wf(),
            final(self).suggesters() == old(self).suggesters(),
    {
        proof {
            use_type_invariant(&*self);
        }
        if self.cache.len() == 0 {
            None
        } else {
            let found = self.cache[self.position].replacement.clone();
            proof {
                lemma_step(self.position as int, self.cache.len() as int);
            }
            if self.position + 1 == self.cache.len() {
                self.position = 0;
            } else {
                self.position = self.position + 1;
            }
            Some(found)
        }
    }
}

/// Cycling: a cache of `n` candidates answers request after request with
/// its candidates in order, and after the last with the first again. The
/// request that follows `count` earlier ones returns the candidate `count`
/// places on from the position, counted round the cache.
pub proof fn lemma_cycling(state: TabHandlerView, count: nat)
    requires
        state.wf(),
        state.cache.len() > 0,
    ensures
        state.advance_by(count).wf(),
        state.advance_by(count).cache == state.cache,
        state.advance_by(count).should_refresh == state.should_refresh,
        state.advance_by(count).position == (state.position + count) % (state.cache.len() as int),
        state.advance_by(count).current() == Some(
            state.cache[(state.position + count) % (state.cache.len() as int)].replacement,
        ),
    decreases count,
{
    let len = state.cache.len() as int;
    if count == 0 {
        vstd::arithmetic::div_mod::lemma_small_mod(state.position as nat, len as nat);
    } else {
        lemma_cycling(state, (count - 1) as nat);
        let before = state.advance_by((count - 1) as nat);
        vstd::arithmetic::div_mod::lemma_add_mod_noop(state.position + count - 1, 1, len);
        vstd::arithmetic::div_mod::lemma_mod_twice(state.position + count - 1, len);
        lemma_step(before.position, len);
        if len == 1 {
            vstd::arithmetic::div_mod::lemma_small_mod(0, 1);
        } else {
            vstd::arithmetic::div_mod::lemma_small_mod(1, len as nat);
        }
        vstd::arithmetic::div_mod::lemma_mod_bound(state.position + count, len);
    }
}

} // verus!
