//! Choosing the strings of a translation template and writing them as CSV.

use vstd::prelude::*;
use vstd::string::StrSliceExecFns;

verus! {

broadcast use vstd::string::group_string_axioms;

/// Characters that force a CSV field into quotes.
pub open spec fn is_special(c: char) -> bool {
    c == ',' || c == '"' || c == '\n' || c == '\r'
}

/// The field holds a character that forces quotes.
pub open spec fn needs_quotes(s: Seq<char>) -> bool {
    exists|i: int| 0 <= i < s.len() && is_special(#[trigger] s[i])
}

/// `s` with every `"` doubled.
pub open spec fn double_quotes(s: Seq<char>) -> Seq<char>
    decreases s.len(),
{
    if s.len() == 0 {
        seq![]
    } else {
        double_quotes(s.drop_last()) + (if s.last() == '"' { seq!['"', '"'] } else { seq![s.last()] })
    }
}

/// A CSV field: quoted, with inner quotes doubled, when it holds a comma, a
/// quote or a line break; else as it is.
pub open spec fn csv_escaped(s: Seq<char>) -> Seq<char> {
    if needs_quotes(s) {
        seq!['"'] + double_quotes(s) + seq!['"']
    } else {
        s
    }
}

/// Writes `s` as a CSV field.
pub fn csv_field(s: &str) -> (r: Vec<char>)
    ensures
        r@ == csv_escaped(s@),
{
    let mut body: Vec<char> = Vec::new();
    let mut plain: Vec<char> = Vec::new();
    let mut special = false;
    let chars = s.chars();
    for c in it: chars
        invariant
            it.seq() == s@,
            plain@ == s@.take(it.index()),
            body@ == double_quotes(s@.take(it.index())),
            special == needs_quotes(s@.take(it.index())),
    {
        let ghost k = it.index();
        proof {
            assert(s@.take(k + 1).drop_last() =~= s@.take(k));
            assert(s@.take(k + 1).last() == c);
        }
        if c == ',' || c == '"' || c == '\n' || c == '\r' {
            special = true;
        }
        if c == '"' {
            body.push('"');
            body.push('"');
        } else {
            body.push(c);
        }
        plain.push(c);
        proof {
            assert(plain@ =~= s@.take(k + 1));
            assert(body@ =~= double_quotes(s@.take(k + 1)));
            if special && !needs_quotes(s@.take(k)) {
                assert(is_special(s@.take(k + 1)[k]));
            }
            if needs_quotes(s@.take(k + 1)) {
                let i = choose|i: int| 0 <= i < k + 1 && is_special(#[trigger] s@.take(k + 1)[i]);
                if i < k {
                    assert(s@.take(k)[i] == s@.take(k + 1)[i]);
                }
            }
            if needs_quotes(s@.take(k)) {
                let i = choose|i: int| 0 <= i < k && is_special(#[trigger] s@.take(k)[i]);
                assert(s@.take(k)[i] == s@.take(k + 1)[i]);
            }
        }
    }
    proof {
        assert(s@.take(s@.len() as int) =~= s@);
    }
    if special {
        let mut out: Vec<char> = Vec::new();
        out.push('"');
        out.append(&mut body);
        out.push('"');
        out
    } else {
        plain
    }
}


/// An ASCII letter.
pub open spec fn is_ascii_letter(c: char) -> bool {
    ('a' <= c && c <= 'z') || ('A' <= c && c <= 'Z')
}

/// How many ASCII letters `s` holds.
pub open spec fn count_letters(s: Seq<char>) -> nat
    decreases s.len(),
{
    if s.len() == 0 {
        0
    } else {
        count_letters(s.drop_last()) + if is_ascii_letter(s.last()) { 1nat } else { 0nat }
    }
}

/// Every character of `s` is ASCII.
pub open spec fn all_ascii(s: Seq<char>) -> bool {
    forall|i: int| 0 <= i < s.len() ==> #[trigger] s[i] < '\u{80}'
}

/// A string goes into an English template: ASCII only, 2 to `max_len`
/// characters, at least two of them letters.
pub open spec fn template_keeps(s: Seq<char>, max_len: nat) -> bool {
    all_ascii(s) && 2 <= s.len() <= max_len && count_letters(s) >= 2
}

/// A string goes into a full export: 1 to `max_len` characters.
pub open spec fn export_keeps(s: Seq<char>, max_len: nat) -> bool {
    1 <= s.len() <= max_len
}

/// Whether `t` goes into an English template (`template_keeps`).
pub fn keep_for_template(t: &str, max_len: usize) -> (r: bool)
    ensures
        r == template_keeps(t@, max_len as nat),
{
    let total = t.unicode_len();
    let mut n: usize = 0;
    let mut letters: usize = 0;
    let mut ascii = true;
    let chars = t.chars();
    for c in it: chars
        invariant
            it.seq() == t@,
            total == t@.len(),
            n == it.index(),
            letters == count_letters(t@.take(it.index())),
            letters <= n,
            ascii == all_ascii(t@.take(it.index())),
    {
        let ghost k = it.index();
        proof {
            assert(t@.take(k + 1).drop_last() =~= t@.take(k));
            assert(t@.take(k + 1).last() == c);
            assert(k + 1 <= t@.len());
        }
        if c >= '\u{80}' {
            ascii = false;
        }
        if ('a' <= c && c <= 'z') || ('A' <= c && c <= 'Z') {
            letters = letters + 1;
        }
        n = n + 1;
        proof {
            if ascii {
                assert forall|i: int| 0 <= i < k + 1 implies #[trigger] t@.take(k + 1)[i] < '\u{80}' by {
                    if i < k {
                        assert(t@.take(k)[i] == t@.take(k + 1)[i]);
                    }
                }
            } else if all_ascii(t@.take(k)) {
                assert(!(t@.take(k + 1)[k] < '\u{80}'));
            } else {
                let i = choose|i: int| 0 <= i < k && !(#[trigger] t@.take(k)[i] < '\u{80}');
                assert(t@.take(k)[i] == t@.take(k + 1)[i]);
            }
        }
    }
    proof {
        assert(t@.take(t@.len() as int) =~= t@);
    }
    ascii && 2 <= n && n <= max_len && letters >= 2
}

/// Whether `t` goes into a full export (`export_keeps`).
pub fn keep_for_export(t: &str, max_len: usize) -> (r: bool)
    ensures
        r == export_keeps(t@, max_len as nat),
{
    let total = t.unicode_len();
    let mut n: usize = 0;
    let chars = t.chars();
    for c in it: chars
        invariant
            it.seq() == t@,
            total == t@.len(),
            n == it.index(),
    {
        proof {
            assert(it.index() + 1 <= t@.len());
        }
        n = n + 1;
    }
    1 <= n && n <= max_len
}

/// The template's header line `english,russian`.
pub open spec fn template_header() -> Seq<char> {
    seq!['e', 'n', 'g', 'l', 'i', 's', 'h', ',', 'r', 'u', 's', 's', 'i', 'a', 'n', '\n']
}

/// The template's lines: each string as a CSV field, a comma (for the empty
/// translation) and a line break.
pub open spec fn template_rows(rows: Seq<Seq<char>>) -> Seq<char>
    decreases rows.len(),
{
    if rows.len() == 0 {
        seq![]
    } else {
        template_rows(rows.drop_last()) + csv_escaped(rows.last()) + seq![',', '\n']
    }
}

/// A translation template: the header, then one line with an empty
/// translation for each of `rows`, in order.
pub fn csv_template(rows: &[String]) -> (r: Vec<char>)
    ensures
        r@ == template_header() + template_rows(rows@.map_values(|s: String| s@)),
{
    let mut out: Vec<char> = Vec::new();
    out.push('e');
    out.push('n');
    out.push('g');
    out.push('l');
    out.push('i');
    out.push('s');
    out.push('h');
    out.push(',');
    out.push('r');
    out.push('u');
    out.push('s');
    out.push('s');
    out.push('i');
    out.push('a');
    out.push('n');
    out.push('\n');
    let ghost views = rows@.map_values(|s: String| s@);
    proof {
        assert(out@ =~= template_header());
        assert(views.take(0) =~= Seq::<Seq<char>>::empty());
        assert(out@ =~= template_header() + template_rows(views.take(0)));
    }
    let mut i: usize = 0;
    while i < rows.len()
        invariant
            i <= rows.len(),
            views == rows@.map_values(|s: String| s@),
            out@ == template_header() + template_rows(views.take(i as int)),
        decreases rows.len() - i,
    {
        let mut field = csv_field(rows[i].as_str());
        let ghost before = out@;
        out.append(&mut field);
        out.push(',');
        out.push('\n');
        proof {
            assert(views.take(i + 1).drop_last() =~= views.take(i as int));
            assert(views.take(i + 1).last() == rows@[i as int]@);
            assert(out@ =~= template_header() + template_rows(views.take(i + 1)));
        }
        i += 1;
    }
    proof {
        assert(views.take(rows.len() as int) =~= views);
    }
    out
}

} // verus!
