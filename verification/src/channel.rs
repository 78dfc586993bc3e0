//! The shared output channel and its one-time initialization.
//!
//! A process has at most one channel. Every initialization builds its own
//! endpoint first and then tries to claim the registry with it: the first
//! claim installs its endpoint for good, every later one finds the registry
//! taken, gives its endpoint up and still succeeds. The registry here is the
//! rule of that claim; whoever holds the registry makes the claim atomic.
use vstd::prelude::*;
use vstd::string::{StrSliceExecFns, StringExecFns};

verus! {

/// The step at which setting up an endpoint failed.
#[derive(Clone, Copy, Debug, PartialEq, Eq, Structural)]
pub enum ChannelError {
    /// No local endpoint could be bound.
    Bind,
    /// The endpoint could not be made non-blocking.
    NonBlocking,
    /// The remote address could not be associated with the endpoint.
    Connect,
}

/// The key prefix without the separators at its end.
pub open spec fn trimmed(prefix: Seq<char>) -> Seq<char>
    decreases prefix.len(),
{
    if prefix.len() > 0 && prefix.last() == '.' {
        trimmed(prefix.drop_last())
    } else {
        prefix
    }
}

/// The key prefix with exactly one separator at its end.
pub open spec fn normalized(prefix: Seq<char>) -> Seq<char> {
    trimmed(prefix).push('.')
}

/// What a registry holds.
pub struct RegistryView<E> {
    /// The installed endpoint, if the registry has been claimed.
    pub endpoint: Option<E>,
    /// The key prefix that came with the installed endpoint.
    pub prefix: Seq<char>,
}

/// The registry after an initialization that brought `endpoint` and
/// `prefix`: a failed setup and a taken registry change nothing; an
/// endpoint that finds the registry free is installed with its prefix,
/// normalized.
pub open spec fn claimed<E>(
    before: RegistryView<E>,
    endpoint: Result<E, ChannelError>,
    prefix: Seq<char>,
) -> RegistryView<E> {
    match (before.endpoint, endpoint) {
        (None, Ok(endpoint)) => RegistryView {
            endpoint: Some(endpoint),
            prefix: normalized(prefix),
        },
        _ => before,
    }
}

/// The place of the one channel of a process.
pub struct Registry<E> {
    endpoint: Option<E>,
    prefix: String,
}

impl<E> View for Registry<E> {
    type V = RegistryView<E>;

    closed spec fn view(&self) -> RegistryView<E> {
        RegistryView { endpoint: self.endpoint, prefix: self.prefix@ }
    }
}

/// The length of `prefix` without the separators at its end.
fn trimmed_len(prefix: &str) -> (len: usize)
    ensures
        len <= prefix@.len(),
        trimmed(prefix@) == prefix@.take(len as int),
{
    let mut len = prefix.unicode_len();
    assert(prefix@.take(len as int) =~= prefix@);
    while len > 0 && prefix.get_char(len - 1) == '.'
        invariant
            len <= prefix@.len(),
            trimmed(prefix@) == trimmed(prefix@.take(len as int)),
        decreases len,
    {
        assert(prefix@.take(len as int).drop_last() =~= prefix@.take(len - 1));
        len = len - 1;
    }
    len
}

/// Ends `prefix` with exactly one separator: appended if absent, and the
/// only one left of several.
pub fn normalize_prefix(prefix: &str) -> (normal: String)
    ensures
        normal@ == normalized(prefix@),
{
    let len = trimmed_len(prefix);
    let mut normal = String::from_str(prefix.substring_char(0, len));
    normal.append(".");
    proof {
        reveal_strlit(".");
        assert(normal@ =~= prefix@.take(len as int).push('.'));
    }
    normal
}

impl<E> Registry<E> {
    /// A registry that no initialization has claimed yet.
    pub fn new() -> (registry: Registry<E>)
        ensures
            registry@.endpoint is None,
            registry@.prefix == Seq::<char>::empty(),
    {
        Registry { endpoint: None, prefix: String::new() }
    }

    /// Claims the registry for an endpoint that was built beforehand, or
    /// reports why it could not be built.
    ///
    /// A failed setup is handed back as the error and leaves the registry as
    /// it was, so that a later call may try again. An endpoint that finds
    /// the registry free becomes the channel and is kept from then on,
    /// together with `key_prefix`, normalized. One that finds the registry
    /// taken is dropped, and the call succeeds all the same.
    pub fn initialize(
        &mut self,
        endpoint: Result<E, ChannelError>,
        key_prefix: &str,
    ) -> (outcome: Result<(), ChannelError>)
        ensures
            final(self)@ == claimed(old(self)@, endpoint, key_prefix@),
            outcome == match endpoint {
                Ok(_) => Ok::<(), ChannelError>(()),
                Err(error) => Err(error),
            },
    {
        match endpoint {
            Err(error) => Err(error),
            Ok(endpoint) => {
                if self.endpoint.is_none() {
                    self.prefix = normalize_prefix(key_prefix);
                    self.endpoint = Some(endpoint);
                }
                Ok(())
            },
        }
    }

    /// The channel to send through. Before any initialization has
    /// succeeded there is none, and what was to be sent is dropped.
    pub fn channel(&self) -> (channel: Option<&E>)
        ensures
            match channel {
                Some(endpoint) => self@.endpoint == Some(*endpoint),
                None => self@.endpoint is None,
            },
    {
        self.endpoint.as_ref()
    }

    /// The key prefix that came with the channel, normalized.
    pub fn key_prefix(&self) -> (prefix: &str)
        ensures
            prefix@ == self@.prefix,
    {
        self.prefix.as_str()
    }
}

/// A normalized prefix ends with a separator and has none before it.
pub proof fn lemma_normalized_ends_with_one_separator(prefix: Seq<char>)
    ensures
        normalized(prefix).last() == '.',
        normalized(prefix).len() >= 2 ==> normalized(prefix)[normalized(prefix).len() - 2] != '.',
        trimmed(prefix).len() <= prefix.len(),
    decreases prefix.len(),
{
    if prefix.len() > 0 && prefix.last() == '.' {
        lemma_normalized_ends_with_one_separator(prefix.drop_last());
    }
}

/// Normalizing appends the separator where it is absent and changes
/// nothing where exactly one is there; normalizing twice is normalizing once.
pub proof fn lemma_normalized_cases(prefix: Seq<char>)
    ensures
        prefix.len() == 0 || prefix.last() != '.' ==> normalized(prefix) == prefix.push('.'),
        prefix.len() > 0 && prefix.last() == '.' && (prefix.len() == 1 || prefix[prefix.len() - 2]
            != '.') ==> normalized(prefix) == prefix,
        normalized(normalized(prefix)) == normalized(prefix),
{
    if prefix.len() > 0 && prefix.last() == '.' {
        let front = prefix.drop_last();
        if prefix.len() == 1 || prefix[prefix.len() - 2] != '.' {
            assert(trimmed(front) == front);
            assert(front.push('.') =~= prefix);
        }
    }
    lemma_normalized_ends_with_one_separator(prefix);
    let once = normalized(prefix);
    assert(once.drop_last() =~= trimmed(prefix));
    let inner = trimmed(prefix);
    lemma_trimmed_is_trimmed(prefix);
    assert(trimmed(once) == inner);
}

/// A trimmed prefix has no separator at its end to trim.
proof fn lemma_trimmed_is_trimmed(prefix: Seq<char>)
    ensures
        trimmed(trimmed(prefix)) == trimmed(prefix),
        trimmed(prefix).len() == 0 || trimmed(prefix).last() != '.',
    decreases prefix.len(),
{
    if prefix.len() > 0 && prefix.last() == '.' {
        lemma_trimmed_is_trimmed(prefix.drop_last());
    }
}

/// Once an initialization has installed its endpoint, a later one changes
/// nothing, whatever address and prefix it brings: the first claim stands.
pub proof fn lemma_first_claim_stands<E>(
    before: RegistryView<E>,
    first: E,
    first_prefix: Seq<char>,
    second: Result<E, ChannelError>,
    second_prefix: Seq<char>,
)
    ensures
        claimed(claimed(before, Ok(first), first_prefix), second, second_prefix) == claimed(
            before,
            Ok(first),
            first_prefix,
        ),
        claimed(before, Ok(first), first_prefix).endpoint is Some,
        before.endpoint is None ==> claimed(before, Ok(first), first_prefix).endpoint == Some(
            first,
        ),
{
}

} // verus!
