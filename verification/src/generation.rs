//! How the response to one chunk is obtained: from the cache, or from the model with retries.

use vstd::prelude::*;

verus! {

/// What is to be done next to obtain a response.
#[derive(Debug)]
pub enum GenerateStep<E> {
    /// Look the response up in the cache.
    Lookup,
    /// Ask the model.
    Request,
    /// Store the response in the cache.
    Store(String),
    /// The attempt has ended.
    Done(Result<String, E>),
}

/// What a `GenerateStep` holds, as mathematical values.
pub enum StepView<E> {
    Lookup,
    Request,
    Store(Seq<char>),
    Done(Result<Seq<char>, E>),
}

/// A result with its text by what it holds.
pub open spec fn result_view<E>(r: Result<String, E>) -> Result<Seq<char>, E> {
    match r {
        Ok(s) => Ok(s@),
        Err(e) => Err(e),
    }
}

impl<E> View for GenerateStep<E> {
    type V = StepView<E>;

    open spec fn view(&self) -> StepView<E> {
        match *self {
            GenerateStep::Lookup => StepView::Lookup,
            GenerateStep::Request => StepView::Request,
            GenerateStep::Store(s) => StepView::Store(s@),
            GenerateStep::Done(r) => StepView::Done(result_view(r)),
        }
    }
}

/// The progress of obtaining one response.
#[derive(Debug, Clone, Copy, PartialEq, Eq, Structural)]
pub struct Generation {
    /// Whether a cache is in use.
    pub cached: bool,
    /// How often the model may be asked again.
    pub retries_left: usize,
}

/// The first step.
pub open spec fn first_step<E>(cached: bool) -> StepView<E> {
    if cached {
        StepView::Lookup
    } else {
        StepView::Request
    }
}

/// The step after the cache was searched.
pub open spec fn step_after_lookup<E>(found: Result<Option<Seq<char>>, E>) -> StepView<E> {
    match found {
        Err(e) => StepView::Done(Err(e)),
        Ok(Some(hit)) => StepView::Done(Ok(hit)),
        Ok(None) => StepView::Request,
    }
}

/// The step after a reply of the model.
pub open spec fn step_after_reply<E>(g: Generation, reply: Result<Seq<char>, E>) -> StepView<E> {
    match reply {
        Ok(response) => if g.cached {
            StepView::Store(response)
        } else {
            StepView::Done(Ok(response))
        },
        Err(e) => if g.retries_left == 0 {
            StepView::Done(Err(e))
        } else {
            StepView::Request
        },
    }
}

/// The progress after a reply of the model: a failure uses up a retry.
pub open spec fn after_reply<E>(g: Generation, reply: Result<Seq<char>, E>) -> Generation {
    if reply is Err && g.retries_left > 0 {
        Generation { cached: g.cached, retries_left: (g.retries_left - 1) as usize }
    } else {
        g
    }
}

/// The step after the response was stored.
pub open spec fn step_after_store<E>(response: Seq<char>, stored: Result<(), E>) -> StepView<E> {
    match stored {
        Ok(_) => StepView::Done(Ok(response)),
        Err(e) => StepView::Done(Err(e)),
    }
}

/// The outcome of a search in the cache, with its text by what it holds.
pub open spec fn found_view<E>(found: Result<Option<String>, E>) -> Result<Option<Seq<char>>, E> {
    match found {
        Ok(Some(hit)) => Ok(Some(hit@)),
        Ok(None) => Ok(None),
        Err(e) => Err(e),
    }
}

impl Generation {
    /// Begins to obtain a response.
    pub fn new(cached: bool, max_retries: usize) -> (r: Self)
        ensures
            r == (Generation { cached, retries_left: max_retries }),
    {
        Generation { cached, retries_left: max_retries }
    }

    /// The first step.
    pub fn begin<E>(&self) -> (r: GenerateStep<E>)
        ensures
            r@ == first_step::<E>(self.cached),
    {
        if self.cached {
            GenerateStep::Lookup
        } else {
            GenerateStep::Request
        }
    }

    /// The step after the cache was searched.
    pub fn on_lookup<E>(&self, found: Result<Option<String>, E>) -> (r: GenerateStep<E>)
        ensures
            r@ == step_after_lookup(found_view(found)),
    {
        match found {
            Err(e) => GenerateStep::Done(Err(e)),
            Ok(Some(hit)) => GenerateStep::Done(Ok(hit)),
            Ok(None) => GenerateStep::Request,
        }
    }

    /// The step after a reply of the model.
    pub fn on_reply<E>(&mut self, reply: Result<String, E>) -> (r: GenerateStep<E>)
        ensures
            r@ == step_after_reply(*old(self), result_view(reply)),
            *final(self) == after_reply(*old(self), result_view(reply)),
    {
        match reply {
            Ok(response) => {
                if self.cached {
                    GenerateStep::Store(response)
                } else {
                    GenerateStep::Done(Ok(response))
                }
            },
            Err(e) => {
                if self.retries_left == 0 {
                    GenerateStep::Done(Err(e))
                } else {
                    self.retries_left = self.retries_left - 1;
                    GenerateStep::Request
                }
            },
        }
    }

    /// The step after the response was stored.
    pub fn on_stored<E>(&self, response: String, stored: Result<(), E>) -> (r: GenerateStep<E>)
        ensures
            r@ == step_after_store(response@, stored),
    {
        match stored {
            Ok(_) => GenerateStep::Done(Ok(response)),
            Err(e) => GenerateStep::Done(Err(e)),
        }
    }
}

/// The progress after the first `n` replies.
pub open spec fn after_replies<E>(
    g: Generation,
    replies: Seq<Result<Seq<char>, E>>,
    n: nat,
) -> Generation
    decreases n,
{
    if n == 0 {
        g
    } else {
        after_reply(after_replies(g, replies, (n - 1) as nat), replies[n - 1])
    }
}

/// The step after reply `n` (from 0), the replies before it having come.
pub open spec fn step_after_replies<E>(
    g: Generation,
    replies: Seq<Result<Seq<char>, E>>,
    n: nat,
) -> StepView<E> {
    step_after_reply(after_replies(g, replies, n), replies[n as int])
}

proof fn lemma_failures_use_retries<E>(
    g: Generation,
    replies: Seq<Result<Seq<char>, E>>,
    n: nat,
)
    requires
        n <= g.retries_left,
        n <= replies.len(),
        forall|i: int| 0 <= i < n ==> (#[trigger] replies[i]) is Err,
    ensures
        after_replies(g, replies, n) == (Generation {
            cached: g.cached,
            retries_left: (g.retries_left - n) as usize,
        }),
    decreases n,
{
    if n > 0 {
        lemma_failures_use_retries(g, replies, (n - 1) as nat);
        assert(replies[n - 1] is Err);
    }
}

/// As long as the model fails and retries are left it is asked again; so there are at most
/// as many requests as retries, and one more.
pub proof fn law_failures_are_retried<E>(
    g: Generation,
    replies: Seq<Result<Seq<char>, E>>,
    n: nat,
)
    requires
        n < replies.len(),
        forall|i: int| 0 <= i <= n ==> (#[trigger] replies[i]) is Err,
        n <= g.retries_left,
    ensures
        n < g.retries_left ==> step_after_replies(g, replies, n) == StepView::<E>::Request,
        n == g.retries_left ==> step_after_replies(g, replies, n) == StepView::<E>::Done(
            replies[n as int],
        ),
{
    lemma_failures_use_retries(g, replies, n);
    assert(replies[n as int] is Err);
}

/// The first answer after at most as many failures as there are retries is the one that is
/// stored, if there is a cache, and returned.
pub proof fn law_first_answer_is_returned<E>(
    g: Generation,
    replies: Seq<Result<Seq<char>, E>>,
    n: nat,
    response: Seq<char>,
)
    requires
        n < replies.len(),
        n <= g.retries_left,
        forall|i: int| 0 <= i < n ==> (#[trigger] replies[i]) is Err,
        replies[n as int] == Ok::<Seq<char>, E>(response),
    ensures
        g.cached ==> step_after_replies(g, replies, n) == StepView::<E>::Store(response),
        g.cached ==> step_after_store::<E>(response, Ok(())) == StepView::<E>::Done(Ok(response)),
        !g.cached ==> step_after_replies(g, replies, n) == StepView::<E>::Done(Ok(response)),
{
    lemma_failures_use_retries(g, replies, n);
}

/// A response that is in the cache is returned without asking the model.
pub proof fn law_hit_needs_no_request<E>(hit: Seq<char>)
    ensures
        first_step::<E>(true) == StepView::<E>::Lookup,
        step_after_lookup::<E>(Ok(Some(hit))) == StepView::<E>::Done(Ok(hit)),
{
}

/// The cache is searched first if there is one; what it holds is the response, a miss leads to a
/// request, and a failure of the search is the outcome. Without a cache the model is asked at
/// once.
pub proof fn law_cache_comes_first<E>(hit: Seq<char>, e: E)
    ensures
        first_step::<E>(true) == StepView::<E>::Lookup,
        first_step::<E>(false) == StepView::<E>::Request,
        step_after_lookup::<E>(Ok(Some(hit))) == StepView::<E>::Done(Ok(hit)),
        step_after_lookup::<E>(Ok(None)) == StepView::<E>::Request,
        step_after_lookup::<E>(Err(e)) == StepView::<E>::Done(Err(e)),
{
}

/// A reply is stored before it is returned if there is a cache, and returned at once if not. A
/// failure leads to another request as long as a retry is left, and uses it up; the last failure
/// is the outcome.
pub proof fn law_replies_decide<E>(g: Generation, response: Seq<char>, e: E)
    ensures
        g.cached ==> step_after_reply::<E>(g, Ok(response)) == StepView::<E>::Store(response),
        !g.cached ==> step_after_reply::<E>(g, Ok(response)) == StepView::<E>::Done(Ok(response)),
        g.retries_left > 0 ==> step_after_reply::<E>(g, Err(e)) == StepView::<E>::Request,
        g.retries_left == 0 ==> step_after_reply::<E>(g, Err(e)) == StepView::<E>::Done(Err(e)),
        after_reply::<E>(g, Err(e)).cached == g.cached,
        after_reply::<E>(g, Ok(response)) == g,
        g.retries_left > 0 ==> after_reply::<E>(g, Err(e)).retries_left + 1 == g.retries_left,
{
}

/// A stored response is the outcome; if it could not be stored, that failure is.
pub proof fn law_stored_response_is_the_outcome<E>(response: Seq<char>, e: E)
    ensures
        step_after_store::<E>(response, Ok(())) == StepView::<E>::Done(Ok(response)),
        step_after_store::<E>(response, Err(e)) == StepView::<E>::Done(Err(e)),
{
}

} // verus!
