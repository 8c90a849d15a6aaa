//! Reading the locales that a system prefers from what the system says:
//! the values of the environment variables, a buffer of names in UTF-16, or
//! the output of `defaults read NSGlobalDomain AppleLanguages`.
//!
//! Entries that are no locale identifiers are passed over.

use crate::locale::{push_locale, LanguageIdentifier, LocaleView};
use crate::macros::{from_bytes, parsed_langid};
use vstd::prelude::*;
use vstd::slice::slice_subrange;

verus! {

/// The pieces of `bytes` between the separators. There is one piece more than
/// there are separators, so bytes without any are one piece.
pub open spec fn split<A>(bytes: Seq<A>, sep: A) -> Seq<Seq<A>>
    decreases bytes.len(),
{
    if bytes.len() == 0 {
        seq![Seq::empty()]
    } else {
        let prev = split(bytes.drop_last(), sep);
        if bytes.last() == sep {
            prev.push(Seq::empty())
        } else {
            prev.drop_last().push(prev.last().push(bytes.last()))
        }
    }
}

/// The locales that the pieces stand for, in order; a piece that stands for
/// none is passed over.
pub open spec fn read_all(pieces: Seq<Seq<u8>>) -> Seq<LocaleView>
    decreases pieces.len(),
{
    if pieces.len() == 0 {
        Seq::empty()
    } else {
        match parsed_langid(pieces.last()) {
            Ok(l) => read_all(pieces.drop_last()).push(l),
            Err(_) => read_all(pieces.drop_last()),
        }
    }
}

/// The pieces of `bytes` between the separators `sep`.
pub fn split_bytes(bytes: &[u8], sep: u8) -> (r: Vec<Vec<u8>>)
    ensures
        r.deep_view() == split(bytes@, sep),
{
    let mut done: Vec<Vec<u8>> = Vec::new();
    let mut piece: Vec<u8> = Vec::new();
    let mut i: usize = 0;
    assert(bytes@.take(0) =~= Seq::empty());
    assert(done.deep_view().push(piece@) =~= split(bytes@.take(0), sep));
    while i < bytes.len()
        invariant
            i <= bytes.len(),
            done.deep_view().push(piece@) == split(bytes@.take(i as int), sep),
        decreases bytes.len() - i,
    {
        let ghost before = split(bytes@.take(i as int), sep);
        let ghost closed = done.deep_view();
        let ghost open = piece@;
        let b = bytes[i];
        if b == sep {
            done.push(piece);
            piece = Vec::new();
            assert(done.deep_view() =~= closed.push(open)) by {
                assert(done[done.len() - 1].deep_view() =~= open);
            }
        } else {
            piece.push(b);
        }
        i += 1;
        proof {
            let now = bytes@.take(i as int);
            assert(now.drop_last() =~= bytes@.take(i as int - 1));
            assert(now.last() == b);
            assert(before.drop_last() =~= closed);
            assert(before.last() == open);
            assert(done.deep_view().push(piece@) =~= split(now, sep));
        }
    }
    assert(bytes@.take(bytes.len() as int) =~= bytes@);
    let ghost closed = done.deep_view();
    let ghost open = piece@;
    done.push(piece);
    assert(done.deep_view() =~= closed.push(open)) by {
        assert(done[done.len() - 1].deep_view() =~= open);
    }
    done
}

/// The locales that the pieces stand for, in order; a piece that stands for
/// none is passed over.
pub fn read_each(pieces: &Vec<Vec<u8>>) -> (r: Vec<LanguageIdentifier>)
    ensures
        r.deep_view() == read_all(pieces.deep_view()),
{
    let mut out: Vec<LanguageIdentifier> = Vec::new();
    let mut i: usize = 0;
    assert(out.deep_view() =~= Seq::empty());
    assert(pieces.deep_view().take(0) =~= Seq::empty());
    while i < pieces.len()
        invariant
            i <= pieces.len(),
            out.deep_view() == read_all(pieces.deep_view().take(i as int)),
        decreases pieces.len() - i,
    {
        assert(pieces[i as int].deep_view() =~= pieces[i as int]@);
        match from_bytes(pieces[i].as_slice()) {
            Ok(l) => {
                push_locale(&mut out, l);
            },
            Err(_) => {},
        }
        i += 1;
        proof {
            let now = pieces.deep_view().take(i as int);
            assert(now.drop_last() =~= pieces.deep_view().take(i as int - 1));
            assert(now.last() == pieces[i as int - 1]@);
        }
    }
    assert(pieces.deep_view().take(pieces.len() as int) =~= pieces.deep_view());
    out
}

/// The locales that the value of an environment variable names: the value is
/// a list with colons between its entries.
pub fn unix_parse_want_langids(value: &[u8]) -> (r: Vec<LanguageIdentifier>)
    ensures
        r.deep_view() == read_all(split(value@, 0x3au8)),
{
    let pieces = split_bytes(value, 0x3a);
    read_each(&pieces)
}

/// The locales that the value of a variable names, where the variable is set.
pub open spec fn langids_of_value(value: Option<Seq<char>>) -> Seq<LocaleView> {
    match value {
        Some(text) => read_all(split(vstd::utf8::encode_utf8(text), 0x3au8)),
        None => Seq::empty(),
    }
}

/// The environment variables that name the locales that the user prefers, in
/// the order in which they count.
pub fn unix_variables() -> (r: [&'static str; 5])
    ensures
        r@ == seq!["LC_ALL", "LC_MESSAGES", "LANG", "LANGUAGE", "LANGUAGES"],
{
    let r = ["LC_ALL", "LC_MESSAGES", "LANG", "LANGUAGE", "LANGUAGES"];
    assert(r@ =~= seq!["LC_ALL", "LC_MESSAGES", "LANG", "LANGUAGE", "LANGUAGES"]);
    r
}

/// Appends to `out` the locales that the value of a variable names.
fn push_value(out: &mut Vec<LanguageIdentifier>, value: Option<&str>)
    ensures
        final(out).deep_view() == old(out).deep_view() + langids_of_value(value.deep_view()),
{
    match value {
        Some(text) => {
            let named = unix_parse_want_langids(text.as_bytes());
            crate::locale::extend_locales(out, &named);
        },
        None => {
            assert(out.deep_view() + Seq::<LocaleView>::empty() =~= out.deep_view());
        },
    }
}

/// The locales that the environment names, given the values of the variables
/// of [`unix_variables`], each where it is set: those of `LC_ALL` first, then
/// those of `LC_MESSAGES`, of `LANG`, of `LANGUAGE` and of `LANGUAGES`.
pub fn unix_want_langids(
    lc_all: Option<&str>,
    lc_messages: Option<&str>,
    lang: Option<&str>,
    language: Option<&str>,
    languages: Option<&str>,
) -> (r: Vec<LanguageIdentifier>)
    ensures
        r.deep_view() == langids_of_value(lc_all.deep_view()) + langids_of_value(
            lc_messages.deep_view(),
        ) + langids_of_value(lang.deep_view()) + langids_of_value(language.deep_view())
            + langids_of_value(languages.deep_view()),
{
    let mut out: Vec<LanguageIdentifier> = Vec::new();
    assert(out.deep_view() =~= Seq::empty());
    push_value(&mut out, lc_all);
    assert(out.deep_view() =~= langids_of_value(lc_all.deep_view()));
    push_value(&mut out, lc_messages);
    push_value(&mut out, lang);
    push_value(&mut out, language);
    push_value(&mut out, languages);
    out
}

/// The text that `String::from_utf16` decodes from units of UTF-16, where
/// they are valid.
pub uninterp spec fn utf16_text(units: Seq<u16>) -> Option<Seq<char>>;

/// `String::from_utf16`: the text that the units of UTF-16 encode; `None`
/// where they encode none. Nothing is claimed of which units are valid.
#[verifier::external_body]
fn from_utf16(units: &[u16]) -> (r: Option<String>)
    ensures
        r.deep_view() == utf16_text(units@),
{
    String::from_utf16(units).ok()
}

/// The names that the pieces hold, in order: a piece that is empty, or that
/// is no valid UTF-16, holds none.
pub open spec fn names_in(pieces: Seq<Seq<u16>>) -> Seq<Seq<char>>
    decreases pieces.len(),
{
    if pieces.len() == 0 {
        Seq::empty()
    } else if pieces.last().len() == 0 {
        names_in(pieces.drop_last())
    } else {
        match utf16_text(pieces.last()) {
            Some(text) => names_in(pieces.drop_last()).push(text),
            None => names_in(pieces.drop_last()),
        }
    }
}

/// The names in a buffer of UTF-16 in which a zero ends each name.
pub fn names_in_buffer(buffer: &[u16]) -> (r: Vec<String>)
    ensures
        r.deep_view() == names_in(split(buffer@, 0u16)),
{
    let mut out: Vec<String> = Vec::new();
    let mut piece: Vec<u16> = Vec::new();
    let ghost mut done: Seq<Seq<u16>> = Seq::empty();
    let mut i: usize = 0;
    assert(buffer@.take(0) =~= Seq::empty());
    assert(done.push(piece@) =~= split(buffer@.take(0), 0u16));
    assert(out.deep_view() =~= names_in(done));
    while i < buffer.len()
        invariant
            i <= buffer.len(),
            done.push(piece@) == split(buffer@.take(i as int), 0u16),
            out.deep_view() == names_in(done),
        decreases buffer.len() - i,
    {
        let ghost before = split(buffer@.take(i as int), 0u16);
        let ghost closed = done;
        let ghost open = piece@;
        let unit = buffer[i];
        if unit == 0 {
            take_name(&mut out, &piece, Ghost(done));
            proof {
                done = done.push(piece@);
            }
            piece = Vec::new();
        } else {
            piece.push(unit);
        }
        i += 1;
        proof {
            let now = buffer@.take(i as int);
            assert(now.drop_last() =~= buffer@.take(i as int - 1));
            assert(now.last() == unit);
            assert(before.drop_last() =~= closed);
            assert(before.last() == open);
            assert(done.push(piece@) =~= split(now, 0u16));
        }
    }
    assert(buffer@.take(buffer.len() as int) =~= buffer@);
    take_name(&mut out, &piece, Ghost(done));
    out
}

/// Appends to `out` the name that `piece` holds, if it holds one.
fn take_name(out: &mut Vec<String>, piece: &Vec<u16>, Ghost(done): Ghost<Seq<Seq<u16>>>)
    requires
        old(out).deep_view() == names_in(done),
    ensures
        final(out).deep_view() == names_in(done.push(piece@)),
{
    let ghost before = out.deep_view();
    assert(done.push(piece@).drop_last() =~= done);
    assert(done.push(piece@).last() == piece@);
    if piece.len() > 0 {
        match from_utf16(piece.as_slice()) {
            Some(name) => {
                out.push(name);
                assert(out.deep_view() =~= before.push(name@));
            },
            None => {},
        }
    }
}

/// Whether a byte is ASCII white space: a blank, a tab, a line feed, a form
/// feed or a carriage return.
pub open spec fn is_blank(b: u8) -> bool {
    b == 0x20 || b == 0x09 || b == 0x0a || b == 0x0c || b == 0x0d
}

/// `s` without the white space at its end.
pub open spec fn trim_end(s: Seq<u8>) -> Seq<u8>
    decreases s.len(),
{
    if s.len() > 0 && is_blank(s.last()) {
        trim_end(s.drop_last())
    } else {
        s
    }
}

/// `s` without the white space at its start.
pub open spec fn trim_start(s: Seq<u8>) -> Seq<u8>
    decreases s.len(),
{
    if s.len() > 0 && is_blank(s[0]) {
        trim_start(s.drop_first())
    } else {
        s
    }
}

/// `s` without its first byte, if that is `b`.
pub open spec fn strip_first(s: Seq<u8>, b: u8) -> Seq<u8> {
    if s.len() > 0 && s[0] == b {
        s.drop_first()
    } else {
        s
    }
}

/// `s` without its last byte, if that is `b`.
pub open spec fn strip_last(s: Seq<u8>, b: u8) -> Seq<u8> {
    if s.len() > 0 && s.last() == b {
        s.drop_last()
    } else {
        s
    }
}

/// `s` without the quotation marks around it, if it has one at each end.
pub open spec fn unquote(s: Seq<u8>) -> Seq<u8> {
    if s.len() >= 2 && s[0] == 0x22 && s.last() == 0x22 {
        s.subrange(1, s.len() - 1)
    } else {
        s
    }
}

/// The name in one piece of the list: an opening bracket at its start and a
/// closing bracket at its end are taken off, then the white space around it,
/// then the quotation marks.
pub open spec fn entry_name(piece: Seq<u8>) -> Seq<u8> {
    unquote(trim_start(trim_end(strip_last(trim_end(strip_first(piece, 0x28)), 0x29))))
}

/// Where the pieces of [`split`] start: the first at the start of the bytes,
/// each other one behind a separator.
pub open spec fn piece_starts(bytes: Seq<u8>, sep: u8) -> Seq<usize>
    decreases bytes.len(),
{
    if bytes.len() == 0 {
        seq![0usize]
    } else if bytes.last() == sep {
        piece_starts(bytes.drop_last(), sep).push(bytes.len() as usize)
    } else {
        piece_starts(bytes.drop_last(), sep)
    }
}

/// Where the piece of number `k` ends: before the separator in front of the
/// next piece, and the last piece at the end of the bytes.
pub open spec fn piece_end(bytes: Seq<u8>, sep: u8, k: int) -> int {
    let starts = piece_starts(bytes, sep);
    if k + 1 < starts.len() {
        starts[k + 1] - 1
    } else {
        bytes.len() as int
    }
}

/// There are as many starts as pieces, and at least one.
pub proof fn lemma_piece_count(bytes: Seq<u8>, sep: u8)
    ensures
        piece_starts(bytes, sep).len() == split(bytes, sep).len(),
        piece_starts(bytes, sep).len() > 0,
    decreases bytes.len(),
{
    if bytes.len() > 0 {
        lemma_piece_count(bytes.drop_last(), sep);
    }
}

/// The piece of number `k` of [`split`] is the part of the bytes from its
/// start to its end.
pub proof fn lemma_piece(bytes: Seq<u8>, sep: u8, k: int)
    requires
        bytes.len() <= usize::MAX,
        0 <= k < piece_starts(bytes, sep).len(),
    ensures
        k < split(bytes, sep).len(),
        piece_starts(bytes, sep)[k] <= piece_end(bytes, sep, k) <= bytes.len(),
        split(bytes, sep)[k] == bytes.subrange(
            piece_starts(bytes, sep)[k] as int,
            piece_end(bytes, sep, k),
        ),
    decreases bytes.len(),
{
    let starts = piece_starts(bytes, sep);
    let pieces = split(bytes, sep);
    lemma_piece_count(bytes, sep);
    if bytes.len() == 0 {
        assert(pieces[0] =~= bytes.subrange(0, 0));
    } else {
        let front = bytes.drop_last();
        let before = piece_starts(front, sep);
        let old = split(front, sep);
        let n = before.len() as int;
        lemma_piece_count(front, sep);
        if k < n {
            lemma_piece(front, sep, k);
            assert(starts[k] == before[k]);
        }
        if k < n - 1 {
            assert(starts[k + 1] == before[k + 1]);
            assert(pieces[k] == old[k]);
            assert(front.subrange(before[k] as int, piece_end(front, sep, k)) =~= bytes.subrange(
                starts[k] as int,
                piece_end(bytes, sep, k),
            ));
        } else if k == n - 1 {
            if bytes.last() == sep {
                assert(pieces[k] == old[k]);
                assert(front.subrange(before[k] as int, front.len() as int) =~= bytes.subrange(
                    starts[k] as int,
                    piece_end(bytes, sep, k),
                ));
            } else {
                assert(pieces[k] == old[k].push(bytes.last()));
                assert(front.subrange(before[k] as int, front.len() as int).push(bytes.last())
                    =~= bytes.subrange(starts[k] as int, piece_end(bytes, sep, k)));
            }
        } else {
            assert(pieces[k] =~= bytes.subrange(starts[k] as int, piece_end(bytes, sep, k)));
        }
    }
}

/// Whether the piece of number `k` of a list with commas names a locale.
pub open spec fn names_locale(bytes: Seq<u8>, k: int) -> bool {
    parsed_langid(entry_name(split(bytes, 0x2cu8)[k])) is Ok
}

/// Goes through the locales in the output of
/// `defaults read NSGlobalDomain AppleLanguages`: a list in brackets, with
/// commas between its entries.
pub struct MacSysLangidsIterator {
    stdout: Vec<u8>,
    positions: Vec<usize>,
    i: usize,
}

/// Where `bytes[start..end]` ends once the white space at its end is off.
fn trim_end_at(bytes: &[u8], start: usize, end: usize) -> (e: usize)
    requires
        start <= end <= bytes@.len(),
    ensures
        start <= e <= end,
        bytes@.subrange(start as int, e as int) == trim_end(bytes@.subrange(start as int, end as int)),
{
    let mut e = end;
    while e > start && (bytes[e - 1] == 0x20 || bytes[e - 1] == 0x09 || bytes[e - 1] == 0x0a
        || bytes[e - 1] == 0x0c || bytes[e - 1] == 0x0d)
        invariant
            start <= e <= end <= bytes@.len(),
            trim_end(bytes@.subrange(start as int, e as int)) == trim_end(
                bytes@.subrange(start as int, end as int),
            ),
        decreases e,
    {
        assert(bytes@.subrange(start as int, e as int).drop_last() =~= bytes@.subrange(
            start as int,
            e as int - 1,
        ));
        e -= 1;
    }
    e
}

/// Where `bytes[start..end]` starts once the white space at its start is off.
fn trim_start_at(bytes: &[u8], start: usize, end: usize) -> (s: usize)
    requires
        start <= end <= bytes@.len(),
    ensures
        start <= s <= end,
        bytes@.subrange(s as int, end as int) == trim_start(bytes@.subrange(start as int, end as int)),
{
    let mut s = start;
    while s < end && (bytes[s] == 0x20 || bytes[s] == 0x09 || bytes[s] == 0x0a || bytes[s] == 0x0c
        || bytes[s] == 0x0d)
        invariant
            start <= s <= end <= bytes@.len(),
            trim_start(bytes@.subrange(s as int, end as int)) == trim_start(
                bytes@.subrange(start as int, end as int),
            ),
        decreases end - s,
    {
        assert(bytes@.subrange(s as int, end as int).drop_first() =~= bytes@.subrange(
            s as int + 1,
            end as int,
        ));
        s += 1;
    }
    s
}

/// Where the name of the piece `bytes[start..end]` stands.
fn name_range(bytes: &[u8], start: usize, end: usize) -> (r: (usize, usize))
    requires
        start <= end <= bytes@.len(),
    ensures
        start <= r.0 <= r.1 <= end,
        bytes@.subrange(r.0 as int, r.1 as int) == entry_name(bytes@.subrange(start as int, end as int)),
{
    let ghost whole = bytes@.subrange(start as int, end as int);
    let s1 = if start < end && bytes[start] == 0x28 {
        start + 1
    } else {
        start
    };
    assert(bytes@.subrange(s1 as int, end as int) =~= strip_first(whole, 0x28));
    let e1 = trim_end_at(bytes, s1, end);
    let e2 = if s1 < e1 && bytes[e1 - 1] == 0x29 {
        e1 - 1
    } else {
        e1
    };
    assert(bytes@.subrange(s1 as int, e2 as int) =~= strip_last(
        bytes@.subrange(s1 as int, e1 as int),
        0x29,
    ));
    let e3 = trim_end_at(bytes, s1, e2);
    let s3 = trim_start_at(bytes, s1, e3);
    let ghost bare = bytes@.subrange(s3 as int, e3 as int);
    if e3 - s3 >= 2 && bytes[s3] == 0x22 && bytes[e3 - 1] == 0x22 {
        assert(bytes@.subrange(s3 as int + 1, e3 as int - 1) =~= bare.subrange(1, bare.len() - 1));
        (s3 + 1, e3 - 1)
    } else {
        (s3, e3)
    }
}

impl MacSysLangidsIterator {
    /// The positions are those at which the pieces start, and the next piece
    /// is one of them or none.
    #[verifier::type_invariant]
    spec fn well_formed(self) -> bool {
        &&& self.positions@ == piece_starts(self.stdout@, 0x2c)
        &&& self.i <= self.positions.len()
    }

    /// The output that is gone through.
    pub closed spec fn output(self) -> Seq<u8> {
        self.stdout@
    }

    /// The number of the next piece to look at.
    pub closed spec fn position(self) -> int {
        self.i as int
    }

    /// Starts at the first piece of `stdout`.
    pub fn new(stdout: Vec<u8>) -> (r: MacSysLangidsIterator)
        ensures
            r.output() == stdout@,
            r.position() == 0,
    {
        let mut positions: Vec<usize> = Vec::new();
        positions.push(0);
        let mut k: usize = 0;
        assert(stdout@.take(0) =~= Seq::empty());
        assert(positions@ =~= piece_starts(stdout@.take(0), 0x2c));
        while k < stdout.len()
            invariant
                k <= stdout.len(),
                positions@ == piece_starts(stdout@.take(k as int), 0x2c),
            decreases stdout.len() - k,
        {
            if stdout[k] == 0x2c {
                positions.push(k + 1);
            }
            k += 1;
            proof {
                let now = stdout@.take(k as int);
                assert(now.drop_last() =~= stdout@.take(k as int - 1));
                assert(now.last() == stdout@[k as int - 1]);
            }
        }
        assert(stdout@.take(stdout.len() as int) =~= stdout@);
        MacSysLangidsIterator { stdout, positions, i: 0 }
    }

    /// The next locale of the list: that of the first piece, from the current
    /// one on, that names a locale. The pieces are the parts of the output
    /// between its commas, the part before the first comma and the part
    /// behind the last one among them. The pieces up to the one that is
    /// returned are done with. `None` when no piece is left that names a
    /// locale.
    pub fn next(&mut self) -> (r: Option<LanguageIdentifier>)
        ensures
            final(self).output() == old(self).output(),
            old(self).position() <= final(self).position() <= split(old(self).output(), 0x2cu8).len(),
            forall|k: int|
                old(self).position() <= k < final(self).position() - 1 ==> !names_locale(
                    old(self).output(),
                    k,
                ),
            match r {
                Some(l) => {
                    &&& final(self).position() > old(self).position()
                    &&& parsed_langid(
                        entry_name(split(old(self).output(), 0x2cu8)[final(self).position() - 1]),
                    ) == Ok::<LocaleView, crate::macros::LanguageIdentifierError>(l@)
                    &&& l@.is_normalized()
                },
                None => {
                    &&& final(self).position() == split(old(self).output(), 0x2cu8).len()
                    &&& final(self).position() > old(self).position() ==> !names_locale(
                        old(self).output(),
                        final(self).position() - 1,
                    )
                },
            },
    {
        proof {
            use_type_invariant(&*self);
            lemma_piece_count(self.stdout@, 0x2c);
        }
        let ghost first = self.i as int;
        while self.i < self.positions.len()
            invariant
                self.stdout@ == old(self).stdout@,
                self.positions@ == piece_starts(self.stdout@, 0x2c),
                self.positions@.len() == split(self.stdout@, 0x2cu8).len(),
                old(self).i <= self.i <= self.positions.len(),
                first == old(self).i,
                forall|k: int| first <= k < self.i ==> !names_locale(self.stdout@, k),
            decreases self.positions.len() - self.i,
        {
            let k = self.i;
            proof {
                assert(self.stdout@.len() == self.stdout.len());
                lemma_piece(self.stdout@, 0x2c, k as int);
            }
            let start = self.positions[k];
            let end = if k + 1 < self.positions.len() {
                self.positions[k + 1] - 1
            } else {
                self.stdout.len()
            };
            assert(end == piece_end(self.stdout@, 0x2c, k as int));
            let (from, to) = name_range(self.stdout.as_slice(), start, end);
            let name = slice_subrange(self.stdout.as_slice(), from, to);
            let read = from_bytes(name);
            self.i = k + 1;
            match read {
                Ok(l) => {
                    return Some(l);
                },
                Err(_) => {},
            }
        }
        None
    }
}

/// Goes through the locales in the output of
/// `defaults read NSGlobalDomain AppleLanguages`.
pub fn macos_parse_want_langids(stdout: Vec<u8>) -> (r: MacSysLangidsIterator)
    ensures
        r.output() == stdout@,
        r.position() == 0,
{
    MacSysLangidsIterator::new(stdout)
}

} // verus!
