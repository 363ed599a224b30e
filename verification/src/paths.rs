//! Path prefixes and normalized paths.

use crate::opaque_os_str::{
    first_stripped, is_narrow, lemma_split_nonempty, narrowed, split_at_marks, unit_byte,
    views_of, widened, OpaqueOsStr,
};
use vstd::prelude::*;

verus! {

/// A valid Windows drive: one of the 26 uppercase letters from 'A' to 'Z'.
#[derive(Debug, Clone, Copy, PartialEq, Eq, Structural, PartialOrd, Ord, Hash)]
pub struct WindowsDrive(char);

/// A character that is not an ASCII letter was given as a drive letter.
#[derive(Debug, Clone, Copy)]
pub struct InvalidWindowsDriveLetter;

/// Whether `c` is one of the 52 ASCII letters.
pub open spec fn is_ascii_letter(c: char) -> bool {
    ('a' <= c && c <= 'z') || ('A' <= c && c <= 'Z')
}

/// The uppercase form of an ASCII letter; any other character is left as it is.
pub open spec fn ascii_uppercase(c: char) -> char {
    if 'a' <= c && c <= 'z' {
        ((c as u8) - 32) as char
    } else {
        c
    }
}

/// The drive of the uppercase letter `letter`.
pub closed spec fn drive(letter: char) -> WindowsDrive {
    WindowsDrive(letter)
}

impl WindowsDrive {
    /// The drive's letter as a mathematical value.
    pub closed spec fn letter(self) -> char {
        self.0
    }

    /// A drive is its letter and nothing more.
    pub broadcast proof fn lemma_drive_letter(letter: char)
        ensures
            (#[trigger] drive(letter)).letter() == letter,
    {
    }

    /// Drives of one letter are one drive.
    pub proof fn lemma_same_letter(self, other: WindowsDrive)
        ensures
            self == drive(self.letter()),
            self.letter() == other.letter() <==> self == other,
    {
    }

    #[verifier::type_invariant]
    spec fn is_uppercase(self) -> bool {
        'A' <= self.0 && self.0 <= 'Z'
    }

    /// The drive's uppercase letter ('A' to 'Z').
    pub fn uppercase_letter(&self) -> (c: char)
        ensures
            c == self.letter(),
            'A' <= c && c <= 'Z',
    {
        proof {
            use_type_invariant(self);
        }
        self.0
    }

    /// The drive named by an ASCII letter of either case.
    pub fn try_from(value: char) -> (r: Result<WindowsDrive, InvalidWindowsDriveLetter>)
        ensures
            r is Ok <==> is_ascii_letter(value),
            r matches Ok(found) ==> found == drive(ascii_uppercase(value)),
    {
        if 'a' <= value && value <= 'z' {
            let upper: u8 = (value as u8) - 32;
            Ok(WindowsDrive(upper as char))
        } else if 'A' <= value && value <= 'Z' {
            Ok(WindowsDrive(value))
        } else {
            Err(InvalidWindowsDriveLetter)
        }
    }
}

/// The root marker that a path or a pattern starts with.
#[derive(Debug, Clone, Copy, PartialEq, Eq, Structural)]
pub enum PathPrefix {
    /// The root directory (`/` or `\`).
    RootDir,
    /// A Windows drive (`C:` or `\\?\C:`).
    WindowsDrive(WindowsDrive),
}

/// The path has a prefix that is not supported: one that starts with `\\` and is
/// not `\\?\`, a drive letter and a colon (`\\?\UNC\`, `\\.\device`, `\\server\share`).
#[derive(Debug, Clone, Copy, PartialEq, Eq, Structural)]
pub struct UnsupportedWindowsPrefix;

/// A normalized path: a supported prefix, if any, and the components behind it,
/// none of them empty or `.`.
#[derive(Debug, Clone, PartialEq, Eq)]
pub struct NormalizedPath {
    prefix: Option<PathPrefix>,
    components: Vec<Vec<u8>>,
}

/// What a [`NormalizedPath`] stands for.
pub ghost struct NormalizedPathView {
    pub prefix: Option<PathPrefix>,
    pub components: Seq<Seq<u8>>,
}

impl View for NormalizedPath {
    type V = NormalizedPathView;

    closed spec fn view(&self) -> NormalizedPathView {
        NormalizedPathView { prefix: self.prefix, components: self.components.deep_view() }
    }
}

/// Whether a byte is one of the two separators, `/` and `\`.
pub open spec fn is_separator_byte(byte: u8) -> bool {
    byte == 0x2f || byte == 0x5c
}

/// For each unit, whether it is a separator.
pub open spec fn separator_marks(units: Seq<u16>) -> Seq<bool> {
    Seq::new(units.len(), |i: int| is_separator_byte(unit_byte(units[i])))
}

/// The names among `pieces`: each piece's bytes, without the empty pieces and
/// without those that are `.`.
pub open spec fn kept_names(pieces: Seq<Seq<u16>>) -> Seq<Seq<u8>>
    decreases pieces.len(),
{
    if pieces.len() == 0 {
        Seq::empty()
    } else {
        let name = narrowed(pieces.last());
        if name.len() == 0 || name == seq![0x2eu8] {
            kept_names(pieces.drop_last())
        } else {
            kept_names(pieces.drop_last()).push(name)
        }
    }
}

/// The components of the path `units`: what stands between its separators,
/// without the empty names and without `.`.
pub open spec fn path_components(units: Seq<u16>) -> Seq<Seq<u8>> {
    kept_names(split_at_marks(units, separator_marks(units)))
}

/// The drive that `units` start with, and what follows its colon.
pub open spec fn drive_split(units: Seq<u16>) -> Option<(WindowsDrive, Seq<u16>)> {
    if units.len() >= 2 && is_ascii_letter(unit_byte(units[0]) as char) && unit_byte(units[1])
        == 0x3a {
        Some((drive(ascii_uppercase(unit_byte(units[0]) as char)), units.skip(2)))
    } else {
        None
    }
}

/// What follows a drive, without the one separator that may stand first.
pub open spec fn after_drive(units: Seq<u16>) -> Seq<u16> {
    if units.len() > 0 && (units[0] == 0x2f || units[0] == 0x5c) {
        units.skip(1)
    } else {
        units
    }
}

/// The path with the drive `found` and the rest `rest`.
pub open spec fn drive_path(found: WindowsDrive, rest: Seq<u16>) -> NormalizedPathView {
    NormalizedPathView {
        prefix: Some(PathPrefix::WindowsDrive(found)),
        components: path_components(after_drive(rest)),
    }
}

/// The normalized form of a path given as units.
///
/// `\\?\C:` and `C:` are a drive, any other path that starts with `\\` is not
/// supported, and one leading separator is the root directory.
pub open spec fn normalized_units(units: Seq<u16>) -> Result<
    NormalizedPathView,
    UnsupportedWindowsPrefix,
> {
    if units.len() >= 2 && units[0] == 0x5c && units[1] == 0x5c {
        if units.len() >= 4 && units[2] == 0x3f && units[3] == 0x5c {
            match drive_split(units.skip(4)) {
                Some((found, rest)) => Ok(drive_path(found, rest)),
                None => Err(UnsupportedWindowsPrefix),
            }
        } else {
            Err(UnsupportedWindowsPrefix)
        }
    } else {
        match drive_split(units) {
            Some((found, rest)) => Ok(drive_path(found, rest)),
            None => if units.len() > 0 && (units[0] == 0x2f || units[0] == 0x5c) {
                Ok(
                    NormalizedPathView {
                        prefix: Some(PathPrefix::RootDir),
                        components: path_components(units.skip(1)),
                    },
                )
            } else {
                Ok(NormalizedPathView { prefix: None, components: path_components(units) })
            },
        }
    }
}

/// The normalized form of a path given as bytes.
pub open spec fn normalized(path: Seq<u8>) -> Result<NormalizedPathView, UnsupportedWindowsPrefix> {
    normalized_units(widened(path))
}

/// Whether `name` can be a component of a normalized path: it is not empty, it is
/// not `.`, and it holds no separator.
pub open spec fn is_name(name: Seq<u8>) -> bool {
    &&& name.len() > 0
    &&& name != seq![0x2eu8]
    &&& forall|k: int| 0 <= k < name.len() ==> !is_separator_byte(#[trigger] name[k])
}

impl NormalizedPathView {
    /// Whether each component is a name.
    pub open spec fn well_formed(self) -> bool {
        forall|i: int| 0 <= i < self.components.len() ==> is_name(#[trigger] self.components[i])
    }
}

/// No piece between the separators holds a separator.
pub proof fn lemma_pieces_hold_no_separator(units: Seq<u16>)
    ensures
        forall|i: int, k: int|
            #![trigger split_at_marks(units, separator_marks(units))[i][k]]
            0 <= i < split_at_marks(units, separator_marks(units)).len() && 0 <= k
                < split_at_marks(units, separator_marks(units))[i].len() ==> !is_separator_byte(
                unit_byte(split_at_marks(units, separator_marks(units))[i][k]),
            ),
    decreases units.len(),
{
    if units.len() > 0 {
        let shorter = units.drop_last();
        assert(separator_marks(units).drop_last() =~= separator_marks(shorter));
        lemma_pieces_hold_no_separator(shorter);
        lemma_split_nonempty(shorter, separator_marks(shorter));
        let before = split_at_marks(shorter, separator_marks(shorter));
        let pieces = split_at_marks(units, separator_marks(units));
        assert forall|i: int, k: int| 0 <= i < pieces.len() && 0 <= k < pieces[i].len() implies
            !is_separator_byte(unit_byte(#[trigger] pieces[i][k])) by {
            if separator_marks(units).last() {
                assert(pieces[i][k] == before[i][k]);
            } else if i < pieces.len() - 1 {
                assert(pieces[i][k] == before[i][k]);
            } else if k < before.last().len() {
                assert(pieces[i][k] == before[before.len() - 1][k]);
            } else {
                assert(pieces[i][k] == units.last());
            }
        }
    }
}

/// The names kept of pieces that hold no separator are names.
pub proof fn lemma_kept_names_are_names(pieces: Seq<Seq<u16>>)
    requires
        forall|i: int, k: int|
            0 <= i < pieces.len() && 0 <= k < pieces[i].len() ==> !is_separator_byte(
                unit_byte(#[trigger] pieces[i][k]),
            ),
    ensures
        forall|i: int| 0 <= i < kept_names(pieces).len() ==> is_name(#[trigger] kept_names(pieces)[i]),
    decreases pieces.len(),
{
    if pieces.len() > 0 {
        let shorter = pieces.drop_last();
        assert forall|i: int, k: int| 0 <= i < shorter.len() && 0 <= k < shorter[i].len() implies
            !is_separator_byte(unit_byte(#[trigger] shorter[i][k])) by {
            assert(shorter[i][k] == pieces[i][k]);
        }
        lemma_kept_names_are_names(shorter);
        let name = narrowed(pieces.last());
        assert forall|k: int| 0 <= k < name.len() implies !is_separator_byte(#[trigger] name[k]) by {
            assert(name[k] == unit_byte(pieces[pieces.len() - 1][k]));
        }
        let kept = kept_names(pieces);
        let before = kept_names(shorter);
        assert forall|i: int| 0 <= i < kept.len() implies is_name(#[trigger] kept[i]) by {
            if i < before.len() {
                assert(kept[i] == before[i]);
                assert(is_name(before[i]));
            } else {
                assert(kept[i] == name);
            }
        }
    }
}

/// The components of a normalized path are names: none is empty or `.`, and none
/// holds a separator. Its prefix is written as it is read: the letter of a drive is
/// an uppercase letter.
pub proof fn lemma_normalized_is_well_formed(units: Seq<u16>)
    ensures
        normalized_units(units) matches Ok(found) ==> found.well_formed() && is_written_prefix(
            found.prefix,
        ),
{
    if let Ok(found) = normalized_units(units) {
        if let Some(PathPrefix::WindowsDrive(on)) = found.prefix {
            let letter = choose|letter: char|
                is_ascii_letter(letter) && on == drive(ascii_uppercase(letter));
            assert(is_ascii_letter(letter) && on == drive(ascii_uppercase(letter))) by {
                if drive_split(units) is Some {
                    let c = unit_byte(units[0]) as char;
                    assert(is_ascii_letter(c) && on == drive(ascii_uppercase(c)));
                } else {
                    let c = unit_byte(units.skip(4)[0]) as char;
                    assert(is_ascii_letter(c) && on == drive(ascii_uppercase(c)));
                }
            }
            WindowsDrive::lemma_drive_letter(ascii_uppercase(letter));
        }
        let rest = choose|rest: Seq<u16>| found.components == path_components(rest);
        assert(found.components == path_components(units) || found.components == path_components(
            units.skip(1),
        ) || found.components == path_components(after_drive(units.skip(2)))
            || found.components == path_components(after_drive(units.skip(4).skip(2))));
        lemma_pieces_hold_no_separator(rest);
        lemma_kept_names_are_names(split_at_marks(rest, separator_marks(rest)));
    }
}

/// The pieces of `units` between its separators.
pub open spec fn pieces_of(units: Seq<u16>) -> Seq<Seq<u16>> {
    split_at_marks(units, separator_marks(units))
}

/// What one more unit does to the pieces: a separator opens a new, empty piece, and
/// any other unit goes to the end of the last piece.
pub proof fn lemma_pieces_push(units: Seq<u16>, unit: u16)
    ensures
        pieces_of(units).len() > 0,
        pieces_of(units.push(unit)) == if is_separator_byte(unit_byte(unit)) {
            pieces_of(units).push(Seq::empty())
        } else {
            pieces_of(units).drop_last().push(pieces_of(units).last().push(unit))
        },
{
    let longer = units.push(unit);
    lemma_split_nonempty(units, separator_marks(units));
    assert(longer.drop_last() =~= units);
    assert(separator_marks(longer).drop_last() =~= separator_marks(units));
}

/// Units without a separator among them go to the end of the last piece.
pub proof fn lemma_pieces_append(units: Seq<u16>, run: Seq<u16>)
    requires
        forall|k: int| 0 <= k < run.len() ==> !is_separator_byte(unit_byte(#[trigger] run[k])),
    ensures
        pieces_of(units).len() > 0,
        pieces_of(units + run) == pieces_of(units).drop_last().push(pieces_of(units).last() + run),
    decreases run.len(),
{
    let before = pieces_of(units);
    lemma_split_nonempty(units, separator_marks(units));
    if run.len() == 0 {
        assert(units + run =~= units);
        assert(before.drop_last().push(before.last() + run) =~= before);
    } else {
        let shorter = run.drop_last();
        lemma_pieces_append(units, shorter);
        lemma_pieces_push(units + shorter, run.last());
        assert((units + shorter).push(run.last()) =~= units + run);
        let middle = pieces_of(units + shorter);
        assert(middle.drop_last() =~= before.drop_last());
        assert(middle.last().push(run.last()) =~= before.last() + run);
    }
}

/// Each name as units.
pub open spec fn widened_names(names: Seq<Seq<u8>>) -> Seq<Seq<u16>> {
    Seq::new(names.len(), |i: int| widened(names[i]))
}

/// The pieces of names written with `/` between them are the names.
pub proof fn lemma_pieces_of_joined(names: Seq<Seq<u8>>)
    requires
        forall|i: int| 0 <= i < names.len() ==> is_name(#[trigger] names[i]),
    ensures
        pieces_of(widened(joined_names(names))) == if names.len() == 0 {
            seq![Seq::<u16>::empty()]
        } else {
            widened_names(names)
        },
    decreases names.len(),
{
    if names.len() == 0 {
        assert(widened(joined_names(names)) =~= Seq::empty());
    } else {
        let last = names.last();
        let run = widened(last);
        assert(is_name(last));
        assert forall|k: int| 0 <= k < run.len() implies !is_separator_byte(
            unit_byte(#[trigger] run[k]),
        ) by {
            assert(unit_byte(run[k]) == last[k]);
        }
        if names.len() == 1 {
            let nothing = Seq::<u16>::empty();
            lemma_pieces_append(nothing, run);
            assert(nothing + run =~= widened(joined_names(names)));
            assert(pieces_of(nothing) =~= seq![nothing]);
            assert(pieces_of(nothing).drop_last().push(pieces_of(nothing).last() + run)
                =~= widened_names(names));
        } else {
            let shorter = names.drop_last();
            assert forall|i: int| 0 <= i < shorter.len() implies is_name(#[trigger] shorter[i]) by {
                assert(shorter[i] == names[i]);
            }
            lemma_pieces_of_joined(shorter);
            let head = widened(joined_names(shorter));
            lemma_pieces_push(head, 0x2f);
            lemma_pieces_append(head.push(0x2f), run);
            assert(head.push(0x2f) + run =~= widened(joined_names(names)));
            assert(widened_names(shorter).push(Seq::empty()).drop_last().push(
                Seq::<u16>::empty() + run,
            ) =~= widened_names(names));
        }
    }
}

/// The names kept of names given as units are those names.
pub proof fn lemma_kept_names_of_names(names: Seq<Seq<u8>>)
    requires
        forall|i: int| 0 <= i < names.len() ==> is_name(#[trigger] names[i]),
    ensures
        kept_names(widened_names(names)) == names,
    decreases names.len(),
{
    if names.len() > 0 {
        let shorter = names.drop_last();
        assert forall|i: int| 0 <= i < shorter.len() implies is_name(#[trigger] shorter[i]) by {
            assert(shorter[i] == names[i]);
        }
        lemma_kept_names_of_names(shorter);
        assert(widened_names(names).drop_last() =~= widened_names(shorter));
        assert(is_name(names.last()));
        assert(narrowed(widened_names(names).last()) =~= names.last());
        assert(kept_names(widened_names(names)) =~= names);
    }
}

/// Whether a prefix is written as it is read: any prefix but a drive whose letter
/// is not an uppercase letter.
pub open spec fn is_written_prefix(prefix: Option<PathPrefix>) -> bool {
    prefix matches Some(PathPrefix::WindowsDrive(found)) ==> 'A' <= found.letter() <= 'Z'
}

/// Whether a relative path with this first name reads as a path with a drive.
pub open spec fn reads_as_drive(name: Seq<u8>) -> bool {
    name.len() >= 2 && is_ascii_letter(name[0] as char) && name[1] == 0x3a
}

/// Writing and reading agree. The bytes of a path made of names normalize to the
/// path's prefix and names, unless a path without a prefix starts with a name that
/// reads as a drive.
pub proof fn lemma_path_text_normalizes(prefix: Option<PathPrefix>, names: Seq<Seq<u8>>)
    requires
        is_written_prefix(prefix),
        forall|i: int| 0 <= i < names.len() ==> is_name(#[trigger] names[i]),
        prefix is None && names.len() > 0 ==> !reads_as_drive(names[0]),
    ensures
        normalized(path_text(prefix, names)) == Ok::<NormalizedPathView, UnsupportedWindowsPrefix>(
            NormalizedPathView { prefix, components: names },
        ),
{
    let rest = widened(joined_names(names));
    let units = widened(path_text(prefix, names));
    lemma_pieces_of_joined(names);
    lemma_kept_names_of_names(names);
    assert(path_components(rest) == names) by {
        if names.len() == 0 {
            assert(narrowed(Seq::<u16>::empty()) =~= Seq::<u8>::empty());
            let only = seq![Seq::<u16>::empty()];
            reveal_with_fuel(kept_names, 2);
            assert(only.drop_last() =~= Seq::<Seq<u16>>::empty());
            assert(narrowed(only.last()).len() == 0);
            assert(kept_names(only) =~= names);
        }
    }
    match prefix {
        None => {
            assert(units =~= rest);
            if names.len() > 0 {
                let first = names[0];
                assert(is_name(first));
                lemma_joined_starts_with_first(names);
                assert(rest[0] == first[0] as u16);
                assert(unit_byte(rest[0]) == first[0]);
                assert(!is_separator_byte(first[0]));
                if rest.len() >= 2 && first.len() >= 2 {
                    assert(unit_byte(rest[1]) == first[1]);
                } else if rest.len() >= 2 {
                    assert(rest[1] == 0x2f);
                }
                assert(drive_split(units) is None);
            }
        },
        Some(PathPrefix::RootDir) => {
            assert(units.skip(1) =~= rest);
            assert(units[0] == 0x2f);
            assert(unit_byte(units[0]) == 0x2f);
        },
        Some(PathPrefix::WindowsDrive(found)) => {
            found.lemma_same_letter(found);
            let letter = found.letter();
            assert(units[0] == letter as u8 as u16);
            assert(units[1] == 0x3a);
            assert(units[2] == 0x2f);
            assert(unit_byte(units[0]) as char == letter);
            assert(units.skip(2).skip(1) =~= rest);
            assert(after_drive(units.skip(2)) =~= rest);
        },
    }
}

/// Names written with `/` between them start with the first name, and a `/`
/// follows it where a second name does.
pub proof fn lemma_joined_starts_with_first(names: Seq<Seq<u8>>)
    requires
        names.len() > 0,
    ensures
        joined_names(names).len() >= names[0].len(),
        joined_names(names).take(names[0].len() as int) == names[0],
        names.len() > 1 ==> joined_names(names).len() > names[0].len() && joined_names(
            names,
        )[names[0].len() as int] == 0x2f,
    decreases names.len(),
{
    if names.len() == 1 {
        assert(joined_names(names).take(names[0].len() as int) =~= names[0]);
    } else {
        let shorter = names.drop_last();
        lemma_joined_starts_with_first(shorter);
        assert(shorter[0] == names[0]);
        let whole = joined_names(names);
        let head = joined_names(shorter);
        assert(whole.take(names[0].len() as int) =~= head.take(names[0].len() as int));
        if shorter.len() == 1 {
            assert(head =~= names[0]);
        } else {
            assert(whole[names[0].len() as int] == head[names[0].len() as int]);
        }
    }
}

/// The pieces of a string of bytes are strings of bytes.
pub proof fn lemma_split_narrow(units: Seq<u16>, marks: Seq<bool>)
    requires
        is_narrow(units),
    ensures
        forall|i: int|
            0 <= i < split_at_marks(units, marks).len() ==> is_narrow(
                #[trigger] split_at_marks(units, marks)[i],
            ),
    decreases units.len(),
{
    if units.len() > 0 {
        let shorter = units.drop_last();
        assert forall|k: int| 0 <= k < shorter.len() implies shorter[k] <= 0xff by {
            assert(shorter[k] == units[k]);
        }
        lemma_split_narrow(shorter, marks.drop_last());
        lemma_split_nonempty(shorter, marks.drop_last());
        let before = split_at_marks(shorter, marks.drop_last());
        let pieces = split_at_marks(units, marks);
        assert forall|i: int| 0 <= i < pieces.len() implies is_narrow(#[trigger] pieces[i]) by {
            if i < pieces.len() - 1 {
                assert(pieces[i] == before[i]);
                assert(is_narrow(before[i]));
            } else if marks.last() {
            } else {
                assert(is_narrow(before.last()));
                assert(units.last() <= 0xff);
            }
        }
    }
}

/// Names with a `/` between each two.
pub open spec fn joined_names(names: Seq<Seq<u8>>) -> Seq<u8>
    decreases names.len(),
{
    if names.len() == 0 {
        Seq::empty()
    } else if names.len() == 1 {
        names[0]
    } else {
        joined_names(names.drop_last()) + seq![0x2fu8] + names.last()
    }
}

/// The bytes of a prefix: nothing, `/`, or the drive's letter, a colon and `/`.
pub open spec fn prefix_bytes(prefix: Option<PathPrefix>) -> Seq<u8> {
    match prefix {
        None => Seq::empty(),
        Some(PathPrefix::RootDir) => seq![0x2fu8],
        Some(PathPrefix::WindowsDrive(found)) => seq![found.letter() as u8, 0x3au8, 0x2fu8],
    }
}

/// The bytes of the path with the given prefix and components.
pub open spec fn path_text(prefix: Option<PathPrefix>, components: Seq<Seq<u8>>) -> Seq<u8> {
    prefix_bytes(prefix) + joined_names(components)
}

/// Whether two byte strings are equal.
pub fn same_bytes(a: &[u8], b: &[u8]) -> (r: bool)
    ensures
        r == (a@ == b@),
{
    if a.len() != b.len() {
        return false;
    }
    let mut i: usize = 0;
    while i < a.len()
        invariant
            i <= a.len(),
            a.len() == b.len(),
            forall|k: int| 0 <= k < i ==> a@[k] == b@[k],
        decreases a.len() - i,
    {
        if a[i] != b[i] {
            return false;
        }
        i += 1;
    }
    assert(a@ =~= b@);
    true
}

/// Whether two sequences of names are equal.
pub fn same_names(a: &[Vec<u8>], b: &[Vec<u8>]) -> (r: bool)
    ensures
        r == (a.deep_view() == b.deep_view()),
{
    assert(a.deep_view().len() == a.len() && b.deep_view().len() == b.len());
    if a.len() != b.len() {
        return false;
    }
    let mut i: usize = 0;
    while i < a.len()
        invariant
            i <= a.len(),
            a.len() == b.len(),
            forall|k: int| 0 <= k < i ==> a.deep_view()[k] == b.deep_view()[k],
        decreases a.len() - i,
    {
        assert(a.deep_view()[i as int] =~= a@[i as int]@);
        assert(b.deep_view()[i as int] =~= b@[i as int]@);
        if !same_bytes(a[i].as_slice(), b[i].as_slice()) {
            return false;
        }
        i += 1;
    }
    assert(a.deep_view() =~= b.deep_view());
    true
}

/// Appends a copy of the bytes `bytes` to `out`.
pub fn append_bytes(out: &mut Vec<u8>, bytes: &[u8])
    ensures
        final(out)@ == old(out)@ + bytes@,
{
    let ghost before = out@;
    let mut i: usize = 0;
    while i < bytes.len()
        invariant
            i <= bytes.len(),
            out@ == before + bytes@.take(i as int),
        decreases bytes.len() - i,
    {
        out.push(bytes[i]);
        assert(out@ =~= before + bytes@.take(i + 1));
        i += 1;
    }
    assert(bytes@.take(i as int) =~= bytes@);
}

/// The names `names` with a `/` between each two.
pub fn join_names(names: &[Vec<u8>]) -> (text: Vec<u8>)
    ensures
        text@ == joined_names(names.deep_view()),
{
    let ghost all = names.deep_view();
    let mut text: Vec<u8> = Vec::new();
    let mut i: usize = 0;
    assert(all.take(0) =~= Seq::empty());
    while i < names.len()
        invariant
            i <= names.len(),
            all == names.deep_view(),
            text@ == joined_names(all.take(i as int)),
        decreases names.len() - i,
    {
        if i > 0 {
            text.push(0x2f);
        }
        append_bytes(&mut text, names[i].as_slice());
        proof {
            let next = all.take(i + 1);
            assert(next.drop_last() =~= all.take(i as int));
            assert(next.last() =~= names@[i as int]@);
            assert(text@ =~= joined_names(next));
        }
        i += 1;
    }
    assert(all.take(i as int) =~= all);
    text
}

/// The bytes of the path with the given prefix and components.
pub fn path_bytes(prefix: Option<PathPrefix>, components: &[Vec<u8>]) -> (text: Vec<u8>)
    ensures
        text@ == path_text(prefix, components.deep_view()),
{
    let mut text: Vec<u8> = Vec::new();
    match prefix {
        Some(PathPrefix::RootDir) => {
            text.push(0x2f);
        },
        Some(PathPrefix::WindowsDrive(found)) => {
            text.push(found.uppercase_letter() as u8);
            text.push(0x3a);
            text.push(0x2f);
        },
        None => {},
    }
    assert(text@ =~= prefix_bytes(prefix));
    let names = join_names(components);
    append_bytes(&mut text, names.as_slice());
    text
}

impl NormalizedPath {
    /// Whether the two paths have the same prefix and the same components.
    pub fn same_as(&self, other: &NormalizedPath) -> (r: bool)
        ensures
            r == (self@ == other@),
    {
        let prefixes = match (self.prefix, other.prefix) {
            (None, None) => true,
            (Some(ours), Some(theirs)) => ours == theirs,
            _ => false,
        };
        prefixes && same_names(self.components.as_slice(), other.components.as_slice())
    }

    /// The bytes of the path: its prefix, then its components with `/` between them.
    pub fn to_path_buf(&self) -> (text: Vec<u8>)
        ensures
            text@ == path_text(self@.prefix, self@.components),
    {
        path_bytes(self.prefix, self.components.as_slice())
    }

    /// The path's prefix.
    pub fn prefix(&self) -> (r: Option<PathPrefix>)
        ensures
            r == self@.prefix,
    {
        self.prefix
    }

    /// The path's components.
    pub fn components(&self) -> (r: &[Vec<u8>])
        ensures
            r.deep_view() == self@.components,
    {
        let r = self.components.as_slice();
        assert(r.deep_view() =~= self.components.deep_view());
        r
    }
}

/// Matches and strips the Windows drive from the provided path: an ASCII letter
/// and a colon.
pub fn strip_windows_drive(path: OpaqueOsStr) -> (r: Option<(WindowsDrive, OpaqueOsStr)>)
    ensures
        match r {
            Some((found, rest)) => drive_split(path@) == Some((found, rest@)),
            None => drive_split(path@) is None,
        },
{
    let (letter, path) = match path.strip_ascii_char() {
        Some(found) => found,
        None => {
            return None;
        },
    };
    let windows_drive = match WindowsDrive::try_from(letter) {
        Ok(found) => found,
        Err(_) => {
            return None;
        },
    };
    let ghost units = path@;
    match path.strip_ascii_char() {
        Some((colon, path)) => {
            if colon == ':' {
                assert(path@ =~= units.skip(1));
                Some((windows_drive, path.to_static()))
            } else {
                None
            }
        },
        None => None,
    }
}

/// Whether a name stays among a path's components.
fn is_kept_name(name: &[u8]) -> (r: bool)
    ensures
        r == !(name@.len() == 0 || name@ == seq![0x2eu8]),
{
    let r = !(name.len() == 0 || (name.len() == 1 && name[0] == 0x2e));
    assert((name.len() == 1 && name@[0] == 0x2e) == (name@ =~= seq![0x2eu8]));
    r
}

/// The components of what follows the prefix.
fn components_of(rest: &OpaqueOsStr) -> (components: Vec<Vec<u8>>)
    requires
        is_narrow(rest@),
    ensures
        components.deep_view() == path_components(rest@),
{
    let is_separator = |c: u8| -> (r: bool)
        ensures
            r == is_separator_byte(c),
        { c == 0x2f || c == 0x5c };
    let pieces = rest.split(is_separator);
    let ghost marks = choose|marks: Seq<bool>|
        marks.len() == rest@.len() && (forall|i: int|
            0 <= i < rest@.len() ==> call_ensures(
                is_separator,
                (unit_byte(rest@[i]),),
                #[trigger] marks[i],
            )) && views_of(pieces@) == split_at_marks(rest@, marks);
    proof {
        assert(marks =~= separator_marks(rest@));
        lemma_split_narrow(rest@, marks);
    }
    let ghost all = views_of(pieces@);
    let mut components: Vec<Vec<u8>> = Vec::new();
    let mut i: usize = 0;
    assert(all.take(0) =~= Seq::empty());
    assert(components.deep_view() =~= Seq::empty());
    while i < pieces.len()
        invariant
            i <= pieces.len(),
            all == views_of(pieces@),
            forall|k: int| 0 <= k < all.len() ==> is_narrow(#[trigger] all[k]),
            components.deep_view() == kept_names(all.take(i as int)),
        decreases pieces.len() - i,
    {
        assert(is_narrow(all[i as int]));
        let name = pieces[i].to_os_string();
        proof {
            assert(all.take(i + 1).drop_last() =~= all.take(i as int));
            assert(all.take(i + 1).last() == pieces@[i as int]@);
        }
        if is_kept_name(name.as_slice()) {
            let ghost before = components.deep_view();
            let ghost bytes = name@;
            assert(name.deep_view() =~= bytes);
            components.push(name);
            assert(components.deep_view() =~= before.push(bytes));
        }
        i += 1;
    }
    assert(all.take(i as int) =~= all);
    components
}

/// What follows a drive, without the one separator that may stand first.
fn skip_separator(rest: OpaqueOsStr) -> (r: OpaqueOsStr)
    ensures
        r@ == after_drive(rest@),
{
    if rest.is_empty() {
        rest.to_static()
    } else {
        let separators: [u8; 2] = [0x2f, 0x5c];
        proof {
            let patterns = separators@;
            assert(patterns.len() == 2);
            assert(patterns[0] == 0x2fu8);
            assert(patterns[1] == 0x5cu8);
            assert(patterns.skip(1)[0] == 0x5cu8);
            assert(patterns.skip(1).skip(1).len() == 0);
            assert(first_stripped(patterns.skip(1).skip(1), rest@) == rest@);
            assert(first_stripped(patterns.skip(1), rest@) == if rest@[0] == 0x5c {
                rest@.skip(1)
            } else {
                rest@
            });
            assert(first_stripped(patterns, rest@) == after_drive(rest@));
        }
        rest.try_strip_prefixes(separators).to_static()
    }
}

/// Normalizes a path.
///
/// * Extracts the prefix (the root directory, and the `C:\` and `\\?\C:\` syntaxes)
/// * Detects unsupported prefixes (`\\?\server\share`, `\\?\UNC\`, `\\.\device`)
/// * Removes empty and `.` components
pub fn normalize_path(path: &[u8]) -> (r: Result<NormalizedPath, UnsupportedWindowsPrefix>)
    ensures
        match r {
            Ok(found) => normalized(path@) == Ok::<NormalizedPathView, UnsupportedWindowsPrefix>(
                found@,
            ) && found@.well_formed(),
            Err(_) => normalized(path@) is Err,
        },
{
    let path = OpaqueOsStr::new(path);
    let ghost units = path@;
    proof {
        lemma_normalized_is_well_formed(units);
    }
    let verbatim: [u8; 2] = [0x5c, 0x5c];
    let (prefix, rest) = if let Some(behind) = path.strip_prefix(&verbatim) {
        assert(units.take(2) == widened(verbatim@));
        assert(units.take(2)[0] == 0x5c && units.take(2)[1] == 0x5c);
        let mark: [u8; 2] = [0x3f, 0x5c];
        let behind = match behind.strip_prefix(&mark) {
            Some(behind) => {
                assert(units.skip(2).take(2) == widened(mark@));
                assert(units.skip(2).take(2)[0] == 0x3f && units.skip(2).take(2)[1] == 0x5c);
                assert(behind@ =~= units.skip(4));
                behind
            },
            None => {
                proof {
                    if units.len() >= 4 && units[2] == 0x3f && units[3] == 0x5c {
                        assert(units.skip(2).take(2) =~= widened(mark@));
                    }
                }
                return Err(UnsupportedWindowsPrefix);
            },
        };
        let (windows_drive, behind) = match strip_windows_drive(behind) {
            Some(found) => found,
            None => {
                return Err(UnsupportedWindowsPrefix);
            },
        };
        (Some(PathPrefix::WindowsDrive(windows_drive)), skip_separator(behind))
    } else {
        proof {
            if units.len() >= 2 && units[0] == 0x5c && units[1] == 0x5c {
                assert(units.take(2) =~= widened(verbatim@));
            }
        }
        if let Some((windows_drive, behind)) = strip_windows_drive(path.borrow()) {
            (Some(PathPrefix::WindowsDrive(windows_drive)), skip_separator(behind))
        } else {
            let slash: u8 = 0x2f;
            let backslash: u8 = 0x5c;
            match path.strip_prefix(slash) {
                Some(behind) => (Some(PathPrefix::RootDir), behind),
                None => match path.strip_prefix(backslash) {
                    Some(behind) => (Some(PathPrefix::RootDir), behind),
                    None => (None, path),
                },
            }
        }
    };
    assert(is_narrow(rest@));
    let components = components_of(&rest);
    Ok(NormalizedPath { prefix, components })
}

} // verus!
