//! The pass over every text that is written: path separators become forward
//! slashes.
//!
//! Texts are handled as bytes. A backslash is one byte in UTF-8 and stands
//! in no other character's bytes, so the pass keeps UTF-8 texts UTF-8.

use vstd::prelude::*;

verus! {

/// The byte of a backslash.
pub const BACKSLASH: u8 = 0x5c;

/// The byte of a forward slash.
pub const SLASH: u8 = 0x2f;

/// The kinds of text that are written.
#[derive(Debug, Clone, Copy, PartialEq, Eq, Structural)]
pub enum TextKind {
    Json,
    Ron,
    Toml,
    Template,
}

/// The bytes with every backslash turned into a forward slash.
pub open spec fn with_slashes(bytes: Seq<u8>) -> Seq<u8> {
    bytes.map_values(
        |b: u8|
            if b == BACKSLASH {
                SLASH
            } else {
                b
            },
    )
}

/// The bytes with every pair of backslashes turned into one forward slash,
/// pairs taken from the left: the escaped backslash of a quoted string
/// becomes a separator, and other escapes stay.
pub open spec fn collapsed(bytes: Seq<u8>) -> Seq<u8>
    decreases bytes.len(),
{
    if bytes.len() == 0 {
        bytes
    } else if bytes.len() >= 2 && bytes[0] == BACKSLASH && bytes[1] == BACKSLASH {
        seq![SLASH] + collapsed(bytes.skip(2))
    } else {
        seq![bytes[0]] + collapsed(bytes.skip(1))
    }
}

/// A text as it is written: in JSON and RON every escaped backslash becomes
/// a forward slash; in TOML so does, after that, every backslash left; in
/// a rendered template every backslash does.
pub open spec fn finished(kind: TextKind, raw: Seq<u8>) -> Seq<u8> {
    match kind {
        TextKind::Json => collapsed(raw),
        TextKind::Ron => collapsed(raw),
        TextKind::Toml => with_slashes(collapsed(raw)),
        TextKind::Template => with_slashes(raw),
    }
}

/// Two backslashes in a row stand at `i`.
pub open spec fn escaped_at(bytes: Seq<u8>, i: int) -> bool {
    0 <= i && i + 1 < bytes.len() && bytes[i] == BACKSLASH && bytes[i + 1] == BACKSLASH
}

/// No backslash is left where every backslash was turned.
pub proof fn lemma_with_slashes_leaves_none(bytes: Seq<u8>)
    ensures
        !with_slashes(bytes).contains(BACKSLASH),
{
    assert forall|i: int| 0 <= i < with_slashes(bytes).len() implies with_slashes(bytes)[i]
        != BACKSLASH by {}
}

/// No escaped backslash is left where the pairs were turned: what begins
/// with a backslash afterwards began with a single one before.
pub proof fn lemma_collapsed_leaves_no_pair(bytes: Seq<u8>)
    ensures
        forall|i: int| !escaped_at(collapsed(bytes), i),
        collapsed(bytes).len() > 0 && collapsed(bytes)[0] == BACKSLASH ==> bytes.len() > 0
            && bytes[0] == BACKSLASH && (bytes.len() == 1 || bytes[1] != BACKSLASH),
    decreases bytes.len(),
{
    if bytes.len() == 0 {
    } else if bytes.len() >= 2 && bytes[0] == BACKSLASH && bytes[1] == BACKSLASH {
        let rest = collapsed(bytes.skip(2));
        lemma_collapsed_leaves_no_pair(bytes.skip(2));
        assert forall|i: int| !escaped_at(collapsed(bytes), i) by {
            if escaped_at(collapsed(bytes), i) {
                assert(i >= 1);
                assert(escaped_at(rest, i - 1));
            }
        }
    } else {
        let rest = collapsed(bytes.skip(1));
        lemma_collapsed_leaves_no_pair(bytes.skip(1));
        assert forall|i: int| !escaped_at(collapsed(bytes), i) by {
            if escaped_at(collapsed(bytes), i) {
                if i == 0 {
                    assert(rest[0] == BACKSLASH);
                    assert(bytes.skip(1)[0] == bytes[1]);
                } else {
                    assert(escaped_at(rest, i - 1));
                }
            }
        }
    }
}

/// Every text is written with forward slashes: a finished template and a
/// finished TOML text hold no backslash at all, finished JSON and RON no
/// escaped one.
pub proof fn lemma_finished_separators(kind: TextKind, raw: Seq<u8>)
    ensures
        kind == TextKind::Toml || kind == TextKind::Template ==> !finished(kind, raw).contains(
            BACKSLASH,
        ),
        forall|i: int| !escaped_at(finished(kind, raw), i),
{
    lemma_collapsed_leaves_no_pair(raw);
    lemma_with_slashes_leaves_none(raw);
    lemma_with_slashes_leaves_none(collapsed(raw));
    match kind {
        TextKind::Toml => {
            assert forall|i: int| !escaped_at(finished(kind, raw), i) by {
                if escaped_at(finished(kind, raw), i) {
                    assert(finished(kind, raw).contains(finished(kind, raw)[i]));
                }
            }
        },
        TextKind::Template => {
            assert forall|i: int| !escaped_at(finished(kind, raw), i) by {
                if escaped_at(finished(kind, raw), i) {
                    assert(finished(kind, raw).contains(finished(kind, raw)[i]));
                }
            }
        },
        _ => {},
    }
}

/// Turns every backslash into a forward slash.
pub fn replace_backslashes(bytes: &[u8]) -> (out: Vec<u8>)
    ensures
        out@ == with_slashes(bytes@),
{
    let mut out: Vec<u8> = Vec::new();
    let mut i: usize = 0;
    while i < bytes.len()
        invariant
            i <= bytes@.len(),
            out@ == with_slashes(bytes@).take(i as int),
        decreases bytes@.len() - i,
    {
        let b = bytes[i];
        out.push(
            if b == BACKSLASH {
                SLASH
            } else {
                b
            },
        );
        assert(with_slashes(bytes@).take(i + 1) =~= with_slashes(bytes@).take(i as int).push(
            with_slashes(bytes@)[i as int],
        ));
        i += 1;
    }
    assert(with_slashes(bytes@).take(bytes@.len() as int) =~= with_slashes(bytes@));
    out
}

/// Turns every pair of backslashes into one forward slash.
pub fn collapse_escaped(bytes: &[u8]) -> (out: Vec<u8>)
    ensures
        out@ == collapsed(bytes@),
{
    let mut out: Vec<u8> = Vec::new();
    let n = bytes.len();
    let mut i: usize = 0;
    assert(bytes@.skip(0) =~= bytes@);
    while i < n
        invariant
            i <= n,
            n == bytes@.len(),
            out@ + collapsed(bytes@.skip(i as int)) == collapsed(bytes@),
        decreases n - i,
    {
        let ghost here = bytes@.skip(i as int);
        let ghost before = out@;
        if bytes[i] == BACKSLASH && n - i >= 2 && bytes[i + 1] == BACKSLASH {
            out.push(SLASH);
            assert(here.skip(2) =~= bytes@.skip(i + 2));
            assert(out@ + collapsed(bytes@.skip(i + 2)) =~= before + collapsed(here));
            i += 2;
        } else {
            out.push(bytes[i]);
            assert(here.skip(1) =~= bytes@.skip(i + 1));
            assert(out@ + collapsed(bytes@.skip(i + 1)) =~= before + collapsed(here));
            i += 1;
        }
    }
    assert(out@ + collapsed(bytes@.skip(n as int)) =~= out@);
    out
}

/// Gives a text the form in which it is written.
pub fn finish_text(kind: TextKind, raw: &[u8]) -> (out: Vec<u8>)
    ensures
        out@ == finished(kind, raw@),
{
    match kind {
        TextKind::Json => collapse_escaped(raw),
        TextKind::Ron => collapse_escaped(raw),
        TextKind::Toml => {
            let first = collapse_escaped(raw);
            replace_backslashes(first.as_slice())
        },
        TextKind::Template => replace_backslashes(raw),
    }
}

} // verus!
