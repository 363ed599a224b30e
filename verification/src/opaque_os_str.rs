//! Operating-system strings as sequences of 16-bit units.

use vstd::prelude::*;
use vstd::slice::{slice_subrange, slice_to_vec};

verus! {

/// An immutable operating-system string, held as 16-bit units so that one
/// representation serves the platforms whose strings are made of bytes and those
/// whose strings are made of wider units.
///
/// What the units mean is the platform's matter; the operations here look at a
/// unit's low byte only.
#[derive(Debug, PartialEq, Eq)]
pub struct OpaqueOsStr {
    inner: Vec<u16>,
}

/// Each byte as a unit.
pub open spec fn widened(bytes: Seq<u8>) -> Seq<u16> {
    Seq::new(bytes.len(), |i: int| bytes[i] as u16)
}

/// The low byte of a unit.
pub open spec fn unit_byte(unit: u16) -> u8 {
    (unit % 256) as u8
}

/// The low byte of each unit.
pub open spec fn narrowed(units: Seq<u16>) -> Seq<u8> {
    Seq::new(units.len(), |i: int| unit_byte(units[i]))
}

/// Whether each unit is a byte.
pub open spec fn is_narrow(units: Seq<u16>) -> bool {
    forall|i: int| 0 <= i < units.len() ==> units[i] <= 0xff
}

/// The pieces of `units` between the marked units. There is one piece more than
/// there are marks set, and a piece is empty where two marked units touch or where
/// one stands at an end.
pub open spec fn split_at_marks(units: Seq<u16>, marks: Seq<bool>) -> Seq<Seq<u16>>
    decreases units.len(),
{
    if units.len() == 0 {
        seq![Seq::empty()]
    } else {
        let before = split_at_marks(units.drop_last(), marks.drop_last());
        if marks.last() {
            before.push(Seq::empty())
        } else {
            before.drop_last().push(before.last().push(units.last()))
        }
    }
}

/// There is always a last piece.
pub proof fn lemma_split_nonempty(units: Seq<u16>, marks: Seq<bool>)
    ensures
        split_at_marks(units, marks).len() > 0,
    decreases units.len(),
{
    if units.len() > 0 {
        lemma_split_nonempty(units.drop_last(), marks.drop_last());
    }
}

/// The views of a sequence of strings.
pub open spec fn views_of(strings: Seq<OpaqueOsStr>) -> Seq<Seq<u16>> {
    Seq::new(strings.len(), |i: int| strings[i]@)
}

/// What the first of `patterns` that applies leaves of `value`; `value` itself
/// where none applies.
pub open spec fn first_stripped<P: StripPattern>(patterns: Seq<P>, value: Seq<u16>) -> Seq<u16>
    decreases patterns.len(),
{
    if patterns.len() == 0 {
        value
    } else {
        match patterns[0].prefix_len(value) {
            Some(n) => value.skip(n as int),
            None => first_stripped(patterns.skip(1), value),
        }
    }
}

/// A pattern that takes a prefix off a sequence of units.
pub trait StripPattern {
    /// The number of leading units that the pattern takes off `value`, where it
    /// applies.
    spec fn prefix_len(&self, value: Seq<u16>) -> Option<nat>;

    /// Takes the prefix off `value`, where the pattern applies.
    fn strip_prefix<'a>(&self, value: &'a [u16]) -> (r: Option<&'a [u16]>)
        ensures
            match r {
                Some(rest) => self.prefix_len(value@) matches Some(n) && n <= value@.len()
                    && rest@ == value@.skip(n as int),
                None => self.prefix_len(value@) is None,
            },
    ;
}

/// A byte takes off one leading unit equal to it.
impl StripPattern for u8 {
    open spec fn prefix_len(&self, value: Seq<u16>) -> Option<nat> {
        if value.len() > 0 && value[0] == *self as u16 {
            Some(1)
        } else {
            None
        }
    }

    fn strip_prefix<'a>(&self, value: &'a [u16]) -> (r: Option<&'a [u16]>) {
        if value.len() > 0 && value[0] == *self as u16 {
            let rest = slice_subrange(value, 1, value.len());
            assert(rest@ =~= value@.skip(1));
            Some(rest)
        } else {
            None
        }
    }
}

/// The number of units that the bytes `bytes` take off `value`: all of them, where
/// `value` starts with them.
pub open spec fn bytes_prefix_len(bytes: Seq<u8>, value: Seq<u16>) -> Option<nat> {
    if bytes.len() <= value.len() && value.take(bytes.len() as int) == widened(bytes) {
        Some(bytes.len())
    } else {
        None
    }
}

/// Takes the bytes `bytes` off the start of `value`.
fn strip_bytes<'a>(bytes: &[u8], value: &'a [u16]) -> (r: Option<&'a [u16]>)
    ensures
        match r {
            Some(rest) => bytes_prefix_len(bytes@, value@) == Some(bytes@.len()) && rest@
                == value@.skip(bytes@.len() as int),
            None => bytes_prefix_len(bytes@, value@) is None,
        },
{
    if bytes.len() > value.len() {
        return None;
    }
    let mut i: usize = 0;
    while i < bytes.len()
        invariant
            i <= bytes.len() <= value.len(),
            forall|k: int| 0 <= k < i ==> value@[k] == bytes@[k] as u16,
        decreases bytes.len() - i,
    {
        if value[i] != bytes[i] as u16 {
            assert(value@.take(bytes.len() as int)[i as int] != widened(bytes@)[i as int]);
            return None;
        }
        i += 1;
    }
    assert(value@.take(bytes.len() as int) =~= widened(bytes@));
    let rest = slice_subrange(value, bytes.len(), value.len());
    assert(rest@ =~= value@.skip(bytes.len() as int));
    Some(rest)
}

/// A byte string takes itself off the start.
impl StripPattern for &[u8] {
    open spec fn prefix_len(&self, value: Seq<u16>) -> Option<nat> {
        bytes_prefix_len(self@, value)
    }

    fn strip_prefix<'a>(&self, value: &'a [u16]) -> (r: Option<&'a [u16]>) {
        strip_bytes(*self, value)
    }
}

/// An array of bytes takes itself off the start.
impl<const N: usize> StripPattern for &[u8; N] {
    open spec fn prefix_len(&self, value: Seq<u16>) -> Option<nat> {
        bytes_prefix_len(self@, value)
    }

    fn strip_prefix<'a>(&self, value: &'a [u16]) -> (r: Option<&'a [u16]>) {
        strip_bytes(self.as_slice(), value)
    }
}

impl View for OpaqueOsStr {
    type V = Seq<u16>;

    closed spec fn view(&self) -> Seq<u16> {
        self.inner@
    }
}

impl OpaqueOsStr {
    /// The string of the bytes `bytes`, each as one unit.
    pub fn new(bytes: &[u8]) -> (r: OpaqueOsStr)
        ensures
            r@ == widened(bytes@),
            is_narrow(r@),
    {
        let mut inner: Vec<u16> = Vec::new();
        let mut i: usize = 0;
        while i < bytes.len()
            invariant
                i <= bytes.len(),
                inner@ == widened(bytes@.take(i as int)),
            decreases bytes.len() - i,
        {
            inner.push(bytes[i] as u16);
            assert(inner@ =~= widened(bytes@.take(i + 1)));
            i += 1;
        }
        assert(bytes@.take(i as int) =~= bytes@);
        OpaqueOsStr { inner }
    }

    /// The bytes of a string whose units are all bytes: what `new` was given.
    pub fn to_os_string(&self) -> (bytes: Vec<u8>)
        requires
            is_narrow(self@),
        ensures
            bytes@ == narrowed(self@),
            widened(bytes@) == self@,
    {
        let mut bytes: Vec<u8> = Vec::new();
        let mut i: usize = 0;
        while i < self.inner.len()
            invariant
                i <= self.inner.len(),
                is_narrow(self.inner@),
                bytes@ == narrowed(self.inner@.take(i as int)),
            decreases self.inner.len() - i,
        {
            let unit = self.inner[i];
            assert(unit <= 0xff);
            bytes.push(unit as u8);
            assert(bytes@ =~= narrowed(self.inner@.take(i + 1)));
            i += 1;
        }
        assert(self.inner@.take(i as int) =~= self.inner@);
        assert(widened(bytes@) =~= self@);
        bytes
    }

    /// A second handle on the same string.
    pub fn borrow(&self) -> (r: OpaqueOsStr)
        ensures
            r@ == self@,
    {
        OpaqueOsStr { inner: self.inner.clone() }
    }

    /// A copy of the string that no borrow binds.
    pub fn to_static(&self) -> (r: OpaqueOsStr)
        ensures
            r@ == self@,
    {
        OpaqueOsStr { inner: self.inner.clone() }
    }

    /// Strips a prefix using the provided pattern: what the pattern leaves, where it
    /// applies.
    pub fn strip_prefix<P: StripPattern>(&self, pattern: P) -> (r: Option<OpaqueOsStr>)
        ensures
            match r {
                Some(rest) => pattern.prefix_len(self@) matches Some(n) && n <= self@.len()
                    && rest@ == self@.skip(n as int),
                None => pattern.prefix_len(self@) is None,
            },
    {
        match pattern.strip_prefix(self.inner.as_slice()) {
            Some(rest) => Some(OpaqueOsStr { inner: slice_to_vec(rest) }),
            None => None,
        }
    }

    /// Strips the first unit and gives its low byte as a character.
    pub fn strip_ascii_char(&self) -> (r: Option<(char, OpaqueOsStr)>)
        ensures
            r is Some <==> self@.len() > 0,
            r matches Some((c, rest)) ==> c == unit_byte(self@[0]) as char && rest@ == self@.skip(
                1,
            ),
    {
        if self.inner.len() == 0 {
            return None;
        }
        let byte: u8 = (self.inner[0] % 256) as u8;
        let rest = slice_subrange(self.inner.as_slice(), 1, self.inner.len());
        assert(rest@ =~= self@.skip(1));
        Some((byte as char, OpaqueOsStr { inner: slice_to_vec(rest) }))
    }

    /// Strips the prefix of the first of `patterns` that applies; the string stays
    /// whole where none does.
    pub fn try_strip_prefixes<P: StripPattern, const N: usize>(&self, patterns: [P; N]) -> (r:
        OpaqueOsStr)
        ensures
            r@ == first_stripped(patterns@, self@),
    {
        let mut i: usize = 0;
        assert(patterns@.skip(0) =~= patterns@);
        while i < N
            invariant
                i <= N,
                N == patterns@.len(),
                first_stripped(patterns@, self@) == first_stripped(patterns@.skip(i as int), self@),
            decreases N - i,
        {
            assert(patterns@.skip(i as int)[0] == patterns@[i as int]);
            assert(patterns@.skip(i as int).skip(1) =~= patterns@.skip(i + 1));
            match patterns[i].strip_prefix(self.inner.as_slice()) {
                Some(stripped) => {
                    return OpaqueOsStr { inner: slice_to_vec(stripped) };
                },
                None => {},
            }
            i += 1;
        }
        self.borrow()
    }

    /// Whether the string holds no unit.
    pub fn is_empty(&self) -> (r: bool)
        ensures
            r == (self@.len() == 0),
    {
        self.inner.len() == 0
    }

    /// Splits the string at the units whose low byte `predicate` holds of. The
    /// pieces are those between the units for which `predicate` returned `true`.
    pub fn split<F: Fn(u8) -> bool>(&self, predicate: F) -> (pieces: Vec<OpaqueOsStr>)
        requires
            forall|byte: u8| call_requires(predicate, (byte,)),
        ensures
            exists|marks: Seq<bool>|
                marks.len() == self@.len() && (forall|i: int|
                    0 <= i < self@.len() ==> call_ensures(
                        predicate,
                        (unit_byte(self@[i]),),
                        #[trigger] marks[i],
                    )) && views_of(pieces@) == split_at_marks(self@, marks),
    {
        let ghost mut marks: Seq<bool> = Seq::empty();
        let mut pieces: Vec<OpaqueOsStr> = Vec::new();
        let mut piece: Vec<u16> = Vec::new();
        let mut i: usize = 0;
        assert(self@.take(0) =~= Seq::empty());
        assert(views_of(pieces@).push(piece@) =~= seq![Seq::<u16>::empty()]);
        while i < self.inner.len()
            invariant
                i <= self.inner.len(),
                forall|byte: u8| call_requires(predicate, (byte,)),
                marks.len() == i,
                forall|k: int|
                    0 <= k < i ==> call_ensures(
                        predicate,
                        (unit_byte(self@[k]),),
                        #[trigger] marks[k],
                    ),
                views_of(pieces@).push(piece@) == split_at_marks(self@.take(i as int), marks),
            decreases self.inner.len() - i,
        {
            let unit = self.inner[i];
            let marked = predicate((unit % 256) as u8);
            let ghost before = views_of(pieces@).push(piece@);
            let ghost longer = marks.push(marked);
            proof {
                assert(self@.take(i + 1).drop_last() =~= self@.take(i as int));
                assert(longer.drop_last() =~= marks);
                assert(self@.take(i + 1).last() == unit);
            }
            if marked {
                let ghost done = views_of(pieces@);
                pieces.push(OpaqueOsStr { inner: piece });
                piece = Vec::new();
                assert(views_of(pieces@) =~= before);
                assert(views_of(pieces@).push(piece@) =~= before.push(Seq::empty()));
            } else {
                let ghost open = piece@;
                piece.push(unit);
                assert(before.drop_last() =~= views_of(pieces@));
                assert(before.last() == open);
            }
            proof {
                marks = longer;
            }
            i += 1;
        }
        assert(self@.take(i as int) =~= self@);
        let ghost before = views_of(pieces@).push(piece@);
        pieces.push(OpaqueOsStr { inner: piece });
        assert(views_of(pieces@) =~= before);
        pieces
    }
}

} // verus!
