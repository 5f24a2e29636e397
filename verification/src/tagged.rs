//! The tagged-union composer: a codec for a closed, field-less variant
//! set, derived from a resolved configuration of representation type and
//! per-variant tag values.
//!
//! A union value is identified by its declaration-order variant index.
//! The wire image of variant `i` is the image of `tags[i]` in the chosen
//! representation; decoding reads a representation value and looks up the
//! first variant whose tag equals it, in declaration order.

use vstd::prelude::*;

use crate::pod::PodError;
use crate::repr::Repr;

verus! {

/// Construction-time configuration errors: the resolver's own failure
/// channel, distinct from the runtime buffer errors [`PodError`].
#[derive(Clone, Copy, Debug, PartialEq, Eq, Structural)]
pub enum ConfigError {
    /// The representation type is not itself codecable.
    UnsupportedRepr,
    /// A union must have at least one variant.
    EmptyUnion,
    /// A tag value does not fit the representation type.
    TagOutOfRange,
    /// Two variants map to the same representation value.
    DuplicateTag,
    /// The explicit zero designation names no variant.
    InvalidZeroVariant,
}

/// Every tag is a value of the representation type.
pub open spec fn spec_tags_in_range(repr: Repr, tags: Seq<i128>) -> bool {
    forall|i: int| 0 <= i < tags.len() ==> repr.spec_in_range((#[trigger] tags[i]) as int)
}

/// No two variants map to the same representation value.
pub open spec fn spec_tags_distinct(tags: Seq<i128>) -> bool {
    forall|i: int, j: int| 0 <= i < j < tags.len() ==> tags[i] != tags[j]
}

/// What a valid resolved union configuration looks like.
pub open spec fn spec_union_config_ok(repr: Repr, tags: Seq<i128>, zero: Option<usize>) -> bool {
    &&& repr.spec_is_pod()
    &&& tags.len() > 0
    &&& spec_tags_in_range(repr, tags)
    &&& spec_tags_distinct(tags)
    &&& (match zero {
        Some(z) => z < tags.len(),
        None => true,
    })
}

/// The error reported for an invalid configuration, checking the
/// representation first, then the variant list, the tag values, tag
/// uniqueness, and last the zero designation.
pub open spec fn spec_union_config_error(repr: Repr, tags: Seq<i128>, zero: Option<usize>)
    -> ConfigError {
    if !repr.spec_is_pod() {
        ConfigError::UnsupportedRepr
    } else if tags.len() == 0 {
        ConfigError::EmptyUnion
    } else if !spec_tags_in_range(repr, tags) {
        ConfigError::TagOutOfRange
    } else if !spec_tags_distinct(tags) {
        ConfigError::DuplicateTag
    } else {
        ConfigError::InvalidZeroVariant
    }
}

/// The first variant index whose tag equals `t`, in declaration order.
pub open spec fn spec_first_match(tags: Seq<i128>, t: int) -> Option<int>
    decreases tags.len(),
{
    if tags.len() == 0 {
        None
    } else if tags[0] as int == t {
        Some(0int)
    } else {
        match spec_first_match(tags.drop_first(), t) {
            Some(k) => Some(k + 1),
            None => None,
        }
    }
}

/// When a tag matches at `i` and nowhere earlier, the first match is `i`.
pub proof fn lemma_first_match_found(tags: Seq<i128>, t: int, i: int)
    requires
        0 <= i < tags.len(),
        tags[i] as int == t,
        forall|j: int| 0 <= j < i ==> (#[trigger] tags[j]) as int != t,
    ensures
        spec_first_match(tags, t) == Some(i),
    decreases i,
{
    if i == 0 {
    } else {
        assert(tags[0] as int != t);
        lemma_first_match_found(tags.drop_first(), t, i - 1);
    }
}

/// When no tag matches, there is no first match.
pub proof fn lemma_first_match_none(tags: Seq<i128>, t: int)
    requires
        forall|j: int| 0 <= j < tags.len() ==> (#[trigger] tags[j]) as int != t,
    ensures
        spec_first_match(tags, t) is None,
    decreases tags.len(),
{
    if tags.len() > 0 {
        lemma_first_match_none(tags.drop_first(), t);
    }
}

/// A first match is a match: it is in bounds, its tag is `t`, and no
/// earlier tag is.
pub proof fn lemma_first_match_is_match(tags: Seq<i128>, t: int)
    ensures
        (match spec_first_match(tags, t) {
            Some(i) => 0 <= i < tags.len() && tags[i] as int == t && (forall|j: int|
                0 <= j < i ==> (#[trigger] tags[j]) as int != t),
            None => forall|j: int| 0 <= j < tags.len() ==> (#[trigger] tags[j]) as int != t,
        }),
    decreases tags.len(),
{
    if tags.len() == 0 {
    } else if tags[0] as int == t {
    } else {
        let rest = tags.drop_first();
        lemma_first_match_is_match(rest, t);
        match spec_first_match(rest, t) {
            Some(k) => {
                assert(spec_first_match(tags, t) == Some(k + 1));
                assert(rest[k] == tags[k + 1]);
                assert forall|j: int| 0 <= j < k + 1 implies (#[trigger] tags[j]) as int != t by {
                    if j > 0 {
                        assert(rest[j - 1] as int != t);
                    }
                }
            },
            None => {
                assert forall|j: int| 0 <= j < tags.len() implies (#[trigger] tags[j]) as int
                    != t by {
                    if j > 0 {
                        assert(rest[j - 1] as int != t);
                    }
                }
            },
        }
    }
}

/// A tagged union's codec, derived once from its resolved configuration.
pub struct UnionLayout {
    repr: Repr,
    tags: Vec<i128>,
    zero_variant: Option<usize>,
}

impl UnionLayout {
    /// The chosen representation type.
    pub closed spec fn spec_repr(self) -> Repr {
        self.repr
    }

    /// The per-variant tag values, in declaration order.
    pub closed spec fn spec_tags(self) -> Seq<i128> {
        self.tags@
    }

    /// The explicit zero-variant designation, when present.
    pub closed spec fn spec_zero_cfg(self) -> Option<usize> {
        self.zero_variant
    }

    /// Every layout that can be constructed is a valid configuration.
    #[verifier::type_invariant]
    pub open spec fn wf(self) -> bool {
        spec_union_config_ok(self.spec_repr(), self.spec_tags(), self.spec_zero_cfg())
    }

    /// Wire size of the union: exactly the representation's size.
    pub open spec fn spec_size(self) -> nat {
        self.spec_repr().spec_size()
    }

    /// Derive a union codec from its resolved configuration, rejecting
    /// invalid configurations through the construction-time error channel.
    #[verifier::loop_isolation(false)]
    pub fn new(repr: Repr, tags: Vec<i128>, zero_variant: Option<usize>) -> (r: Result<
        UnionLayout,
        ConfigError,
    >)
        ensures
            (match r {
                Ok(u) => spec_union_config_ok(repr, tags@, zero_variant) && u.spec_repr() == repr
                    && u.spec_tags() == tags@ && u.spec_zero_cfg() == zero_variant,
                Err(e) => !spec_union_config_ok(repr, tags@, zero_variant) && e
                    == spec_union_config_error(repr, tags@, zero_variant),
            }),
    {
        if !repr.is_pod() {
            return Err(ConfigError::UnsupportedRepr);
        }
        if tags.len() == 0 {
            return Err(ConfigError::EmptyUnion);
        }
        let mut i: usize = 0;
        while i < tags.len()
            invariant
                i <= tags@.len(),
                forall|j: int| 0 <= j < i ==> repr.spec_in_range((#[trigger] tags@[j]) as int),
            decreases tags@.len() - i,
        {
            if !repr.tag_in_range(tags[i]) {
                proof {
                    assert(!repr.spec_in_range(tags@[i as int] as int));
                }
                return Err(ConfigError::TagOutOfRange);
            }
            i = i + 1;
        }
        let mut i: usize = 1;
        while i < tags.len()
            invariant
                1 <= i <= tags@.len(),
                forall|p: int, q: int| 0 <= p < q < i ==> tags@[p] != tags@[q],
            decreases tags@.len() - i,
        {
            let mut j: usize = 0;
            while j < i
                invariant
                    j <= i < tags@.len(),
                    forall|p: int| 0 <= p < j ==> tags@[p] != tags@[i as int],
                decreases i - j,
            {
                if tags[j] == tags[i] {
                    proof {
                        assert(tags@[j as int] == tags@[i as int]);
                        assert(!spec_tags_distinct(tags@));
                    }
                    return Err(ConfigError::DuplicateTag);
                }
                j = j + 1;
            }
            i = i + 1;
        }
        match zero_variant {
            Some(z) => {
                if z >= tags.len() {
                    return Err(ConfigError::InvalidZeroVariant);
                }
            },
            None => {},
        }
        Ok(UnionLayout { repr, tags, zero_variant })
    }

    /// Wire size of the union, in bytes.
    pub fn size(&self) -> (s: usize)
        ensures
            s == self.spec_size(),
    {
        self.repr.size()
    }

    /// How many variants the union has.
    pub fn variant_count(&self) -> (n: usize)
        ensures
            n == self.spec_tags().len(),
            n > 0,
    {
        proof {
            use_type_invariant(self);
        }
        self.tags.len()
    }

    /// Decode a variant index from little-endian bytes: read a
    /// representation value, then return the first variant whose tag
    /// equals it, or `OutOfRange` when no tag matches.
    #[verifier::loop_isolation(false)]
    pub fn decode_le(&self, buffer: &[u8]) -> (r: Result<usize, PodError>)
        ensures
            buffer@.len() < self.spec_size() ==> r == Err::<usize, PodError>(PodError::OutOfSpace),
            buffer@.len() >= self.spec_size() ==> (match r {
                Ok(k) => spec_first_match(
                    self.spec_tags(),
                    self.spec_repr().spec_tag_of_le(buffer@.take(self.spec_size() as int)),
                ) == Some(k as int),
                Err(e) => e == PodError::OutOfRange && spec_first_match(
                    self.spec_tags(),
                    self.spec_repr().spec_tag_of_le(buffer@.take(self.spec_size() as int)),
                ) is None,
            }),
    {
        proof {
            use_type_invariant(self);
        }
        let n = self.repr.size();
        if buffer.len() < n {
            return Err(PodError::OutOfSpace);
        }
        let ghost t0 = self.spec_repr().spec_tag_of_le(buffer@.take(self.spec_size() as int));
        match self.repr.decode_tag_le(buffer) {
            None => {
                proof {
                    assert forall|j: int| 0 <= j < self.spec_tags().len() implies (
                    #[trigger] self.spec_tags()[j]) as int != t0 by {
                        assert(self.spec_tags()[j] as int <= i128::MAX as int);
                    }
                    lemma_first_match_none(self.spec_tags(), t0);
                }
                Err(PodError::OutOfRange)
            },
            Some(t) => {
                let mut i: usize = 0;
                while i < self.tags.len()
                    invariant
                        i <= self.spec_tags().len(),
                        t as int == t0,
                        forall|j: int| 0 <= j < i ==> (#[trigger] self.spec_tags()[j]) != t,
                    decreases self.spec_tags().len() - i,
                {
                    if self.tags[i] == t {
                        proof {
                            lemma_first_match_found(self.spec_tags(), t0, i as int);
                        }
                        return Ok(i);
                    }
                    i = i + 1;
                }
                proof {
                    lemma_first_match_none(self.spec_tags(), t0);
                }
                Err(PodError::OutOfRange)
            },
        }
    }

    /// Decode a variant index from big-endian bytes.
    #[verifier::loop_isolation(false)]
    pub fn decode_be(&self, buffer: &[u8]) -> (r: Result<usize, PodError>)
        ensures
            buffer@.len() < self.spec_size() ==> r == Err::<usize, PodError>(PodError::OutOfSpace),
            buffer@.len() >= self.spec_size() ==> (match r {
                Ok(k) => spec_first_match(
                    self.spec_tags(),
                    self.spec_repr().spec_tag_of_be(buffer@.take(self.spec_size() as int)),
                ) == Some(k as int),
                Err(e) => e == PodError::OutOfRange && spec_first_match(
                    self.spec_tags(),
                    self.spec_repr().spec_tag_of_be(buffer@.take(self.spec_size() as int)),
                ) is None,
            }),
    {
        proof {
            use_type_invariant(self);
        }
        let n = self.repr.size();
        if buffer.len() < n {
            return Err(PodError::OutOfSpace);
        }
        let ghost t0 = self.spec_repr().spec_tag_of_be(buffer@.take(self.spec_size() as int));
        match self.repr.decode_tag_be(buffer) {
            None => {
                proof {
                    assert forall|j: int| 0 <= j < self.spec_tags().len() implies (
                    #[trigger] self.spec_tags()[j]) as int != t0 by {
                        assert(self.spec_tags()[j] as int <= i128::MAX as int);
                    }
                    lemma_first_match_none(self.spec_tags(), t0);
                }
                Err(PodError::OutOfRange)
            },
            Some(t) => {
                let mut i: usize = 0;
                while i < self.tags.len()
                    invariant
                        i <= self.spec_tags().len(),
                        t as int == t0,
                        forall|j: int| 0 <= j < i ==> (#[trigger] self.spec_tags()[j]) != t,
                    decreases self.spec_tags().len() - i,
                {
                    if self.tags[i] == t {
                        proof {
                            lemma_first_match_found(self.spec_tags(), t0, i as int);
                        }
                        return Ok(i);
                    }
                    i = i + 1;
                }
                proof {
                    lemma_first_match_none(self.spec_tags(), t0);
                }
                Err(PodError::OutOfRange)
            },
        }
    }

    /// Encode variant `variant` as little-endian bytes: write the image
    /// of its tag.  This direction cannot fail once the space check
    /// passes, because every constructible instance has a defined tag.
    pub fn encode_le(&self, variant: usize, buffer: &mut [u8]) -> (r: Result<usize, PodError>)
        requires
            variant < self.spec_tags().len(),
        ensures
            old(buffer)@.len() < self.spec_size() ==> r == Err::<usize, PodError>(
                PodError::OutOfSpace,
            ) && final(buffer)@ == old(buffer)@,
            old(buffer)@.len() >= self.spec_size() ==> r == Ok::<usize, PodError>(
                self.spec_size() as usize,
            ) && final(buffer)@ == self.spec_repr().spec_tag_to_le(
                self.spec_tags()[variant as int] as int,
            ) + old(buffer)@.skip(self.spec_size() as int),
    {
        proof {
            use_type_invariant(self);
        }
        let n = self.repr.size();
        if buffer.len() < n {
            return Err(PodError::OutOfSpace);
        }
        let t = self.tags[variant];
        self.repr.encode_tag_le(t, buffer);
        Ok(n)
    }

    /// Encode variant `variant` as big-endian bytes.
    pub fn encode_be(&self, variant: usize, buffer: &mut [u8]) -> (r: Result<usize, PodError>)
        requires
            variant < self.spec_tags().len(),
        ensures
            old(buffer)@.len() < self.spec_size() ==> r == Err::<usize, PodError>(
                PodError::OutOfSpace,
            ) && final(buffer)@ == old(buffer)@,
            old(buffer)@.len() >= self.spec_size() ==> r == Ok::<usize, PodError>(
                self.spec_size() as usize,
            ) && final(buffer)@ == self.spec_repr().spec_tag_to_be(
                self.spec_tags()[variant as int] as int,
            ) + old(buffer)@.skip(self.spec_size() as int),
    {
        proof {
            use_type_invariant(self);
        }
        let n = self.repr.size();
        if buffer.len() < n {
            return Err(PodError::OutOfSpace);
        }
        let t = self.tags[variant];
        self.repr.encode_tag_be(t, buffer);
        Ok(n)
    }

    /// The variant that is the union's zero value.
    pub open spec fn spec_zero_variant(self) -> int {
        match self.spec_zero_cfg() {
            Some(z) => z as int,
            None => match spec_first_match(self.spec_tags(), 0) {
                Some(i) => i,
                None => 0,
            },
        }
    }

    /// The index of the union's zero variant: the explicitly designated
    /// variant when there is one; otherwise the first declared variant
    /// whose tag is the representation's own zero value; otherwise the
    /// first declared variant.
    #[verifier::loop_isolation(false)]
    pub fn zero_variant_index(&self) -> (r: usize)
        ensures
            r as int == self.spec_zero_variant(),
            r < self.spec_tags().len(),
    {
        proof {
            use_type_invariant(self);
        }
        match self.zero_variant {
            Some(z) => z,
            None => {
                let mut i: usize = 0;
                while i < self.tags.len()
                    invariant
                        i <= self.spec_tags().len(),
                        forall|j: int| 0 <= j < i ==> (#[trigger] self.spec_tags()[j]) != 0i128,
                    decreases self.spec_tags().len() - i,
                {
                    if self.tags[i] == 0 {
                        proof {
                            lemma_first_match_found(self.spec_tags(), 0, i as int);
                        }
                        return i;
                    }
                    i = i + 1;
                }
                proof {
                    lemma_first_match_none(self.spec_tags(), 0);
                }
                0
            },
        }
    }
}

/// Tag exhaustiveness, little-endian: decoding the representation value
/// that variant `i`'s tag encodes to yields variant `i` again, never a
/// different variant.  With the decode contract's `OutOfRange` case this
/// pins the whole lookup: a representation value matching no configured
/// tag fails, and one matching a tag returns exactly that variant.
pub proof fn lemma_union_round_trip_le(u: UnionLayout, i: int)
    requires
        u.wf(),
        0 <= i < u.spec_tags().len(),
    ensures
        spec_first_match(
            u.spec_tags(),
            u.spec_repr().spec_tag_of_le(u.spec_repr().spec_tag_to_le(u.spec_tags()[i] as int)),
        ) == Some(i),
{
    u.spec_repr().lemma_tag_round_trip(u.spec_tags()[i] as int);
    lemma_first_match_found(u.spec_tags(), u.spec_tags()[i] as int, i);
}

/// Tag exhaustiveness, big-endian: decoding the representation value that
/// variant `i`'s tag encodes to yields variant `i` again.
pub proof fn lemma_union_round_trip_be(u: UnionLayout, i: int)
    requires
        u.wf(),
        0 <= i < u.spec_tags().len(),
    ensures
        spec_first_match(
            u.spec_tags(),
            u.spec_repr().spec_tag_of_be(u.spec_repr().spec_tag_to_be(u.spec_tags()[i] as int)),
        ) == Some(i),
{
    u.spec_repr().lemma_tag_round_trip(u.spec_tags()[i] as int);
    lemma_first_match_found(u.spec_tags(), u.spec_tags()[i] as int, i);
}

/// Size additivity for tagged unions: the union's wire size is exactly
/// its representation's size.
pub proof fn lemma_union_size(u: UnionLayout)
    ensures
        u.spec_size() == u.spec_repr().spec_size(),
{
}

} // verus!
