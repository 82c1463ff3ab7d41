//! Options of the HTML parser.
use vstd::prelude::*;

verus! {

/// The flag that enables the table of tag ids.
pub const TRACK_IDS: u8 = 1;

/// The flag that enables the table of tag classes.
pub const TRACK_CLASSES: u8 = 2;

/// Whether a raw flag set holds only known flags.
pub open spec fn flags_valid(flags: u8) -> bool {
    flags <= 3
}

/// Options for the HTML parser.
///
/// By default nothing is tracked. Tracking ids or classes makes the parser record, for each
/// tag that it closes, its id or each of its classes in a lookup table.
#[derive(Debug, Clone, Copy, PartialEq, Eq, Structural)]
pub struct ParserOptions {
    flags: u8,
}

impl ParserOptions {
    #[verifier::type_invariant]
    spec fn inv(self) -> bool {
        flags_valid(self.flags)
    }

    /// The raw flag set.
    pub closed spec fn raw(self) -> u8 {
        self.flags
    }

    /// Whether ids are tracked.
    pub open spec fn tracks_ids(self) -> bool {
        self.raw() == 1 || self.raw() == 3
    }

    /// Whether classes are tracked.
    pub open spec fn tracks_classes(self) -> bool {
        self.raw() == 2 || self.raw() == 3
    }

    /// Options with no flag set.
    pub fn new() -> (o: Self)
        ensures
            o.raw() == 0,
            !o.tracks_ids() && !o.tracks_classes(),
    {
        ParserOptions { flags: 0 }
    }

    /// The options with the raw flag set `flags`, where it holds only known flags.
    pub fn from_raw_checked(flags: u8) -> (res: Option<Self>)
        ensures
            res is Some <==> flags_valid(flags),
            res matches Some(o) ==> o.raw() == flags,
    {
        if flags <= 3 {
            Some(ParserOptions { flags })
        } else {
            None
        }
    }

    /// The raw flag set.
    pub fn to_raw(&self) -> (r: u8)
        ensures
            r == self.raw(),
            flags_valid(r),
    {
        proof {
            use_type_invariant(self);
        }
        self.flags
    }

    fn set_flag(&mut self, flag: u8)
        requires
            flag == TRACK_IDS || flag == TRACK_CLASSES,
        ensures
            final(self).raw() == (old(self).raw() | flag),
    {
        proof {
            use_type_invariant(&*self);
        }
        let f = self.flags;
        assert(f <= 3 && (flag == 1u8 || flag == 2u8) ==> (f | flag) <= 3) by (bit_vector);
        self.flags = f | flag;
    }

    /// The options with ids tracked, the other flags unchanged.
    pub fn track_ids(self) -> (o: Self)
        ensures
            o.raw() == (self.raw() | TRACK_IDS),
            flags_valid(o.raw()),
            o.tracks_ids(),
            o.tracks_classes() == self.tracks_classes(),
    {
        proof {
            use_type_invariant(&self);
        }
        let ghost f = self.raw();
        let mut o = self;
        o.set_flag(TRACK_IDS);
        proof {
            use_type_invariant(&o);
        }
        assert(f <= 3 ==> ((f | 1u8) == 1u8 || (f | 1u8) == 3u8) && (((f | 1u8) >= 2u8) == (f
            >= 2u8))) by (bit_vector);
        o
    }

    /// The options with classes tracked, the other flags unchanged.
    pub fn track_classes(self) -> (o: Self)
        ensures
            o.raw() == (self.raw() | TRACK_CLASSES),
            flags_valid(o.raw()),
            o.tracks_classes(),
            o.tracks_ids() == self.tracks_ids(),
    {
        proof {
            use_type_invariant(&self);
        }
        let ghost f = self.raw();
        let mut o = self;
        o.set_flag(TRACK_CLASSES);
        proof {
            use_type_invariant(&o);
        }
        assert(f <= 3 ==> ((f | 2u8) == 2u8 || (f | 2u8) == 3u8) && (((f | 2u8) == 1u8 || (f
            | 2u8) == 3u8) == (f == 1u8 || f == 3u8))) by (bit_vector);
        o
    }

    /// Whether ids are tracked.
    pub fn is_tracking_ids(&self) -> (b: bool)
        ensures
            b == self.tracks_ids(),
    {
        proof {
            use_type_invariant(self);
        }
        let f = self.flags;
        assert(f <= 3 ==> (((f & 1u8) != 0) == (f == 1u8 || f == 3u8))) by (bit_vector);
        f & TRACK_IDS != 0
    }

    /// Whether classes are tracked.
    pub fn is_tracking_classes(&self) -> (b: bool)
        ensures
            b == self.tracks_classes(),
    {
        proof {
            use_type_invariant(self);
        }
        let f = self.flags;
        assert(f <= 3 ==> (((f & 2u8) != 0) == (f == 2u8 || f == 3u8))) by (bit_vector);
        f & TRACK_CLASSES != 0
    }

    /// Whether ids or classes are tracked.
    pub fn is_tracking(&self) -> (b: bool)
        ensures
            b == (self.tracks_ids() || self.tracks_classes()),
    {
        proof {
            use_type_invariant(self);
        }
        let f = self.flags;
        assert(f <= 3 ==> (((f & 1u8) != 0 || (f & 2u8) != 0) == (f != 0u8))) by (bit_vector);
        f & TRACK_IDS != 0 || f & TRACK_CLASSES != 0
    }
}

/// Enabling a kind of tracking twice is enabling it once, and the order in which ids and
/// classes are enabled does not matter.
pub proof fn lemma_tracking_flags(raw: u8)
    ensures
        ((raw | TRACK_IDS) | TRACK_IDS) == (raw | TRACK_IDS),
        ((raw | TRACK_CLASSES) | TRACK_CLASSES) == (raw | TRACK_CLASSES),
        ((raw | TRACK_IDS) | TRACK_CLASSES) == ((raw | TRACK_CLASSES) | TRACK_IDS),
{
    assert(((raw | 1u8) | 1u8) == (raw | 1u8)) by (bit_vector);
    assert(((raw | 2u8) | 2u8) == (raw | 2u8)) by (bit_vector);
    assert(((raw | 1u8) | 2u8) == ((raw | 2u8) | 1u8)) by (bit_vector);
}

/// Options are determined by their raw flags; with the contracts of
/// [`ParserOptions::to_raw`] and [`ParserOptions::from_raw_checked`], turning options into
/// raw flags and back gives the same options.
pub proof fn lemma_raw_determines(a: ParserOptions, b: ParserOptions)
    requires
        a.raw() == b.raw(),
    ensures
        a == b,
{
}

impl Default for ParserOptions {
    fn default() -> (o: Self)
        ensures
            o.raw() == 0,
    {
        ParserOptions { flags: 0 }
    }
}

} // verus!
