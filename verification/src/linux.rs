//! Linux: the machine identifier is merged from the lines that several machine-id sources print.

use vstd::prelude::*;
use vstd::utf8::is_ascii_chars;

use crate::errors::MIDError;
use crate::text::{
    ascii_lowercase, is_lower_ascii, lemma_ascii_lowercase_chars, lemma_ascii_lowercase_concat,
    lemma_ascii_lowercase_fixed, lemma_join_with_chars, lemma_remove_all_chars, lemma_remove_all_none,
    lemma_split_on_chars, lemma_split_on_concat, lemma_split_on_single, lemma_trim_chars,
    lemma_trim_idempotent,
    chars_of, contents, lemma_non_empty_members, lemma_remove_all_absent, lemma_sorted_listing_exists, non_empty, insert_sorted, join_chars, join_with, lemma_sorted_listing_of, lowercase,
    remove_all, remove_char, sorted_listing, split_chars, split_on, str_to_lowercase, string_of,
    strictly_sorted, trim, trim_chars,
};

verus! {

/// A line of output as the identifier keeps it: trimmed, with every `-` taken out.
pub open spec fn clean_line(line: Seq<char>) -> Seq<char> {
    remove_all(trim(line), '-')
}

/// The distinct non-empty cleaned lines of an already lowercased output.
///
/// The lines are the pieces between `'\n'` characters. `str::lines` also drops a `'\r'`
/// before a `'\n'` and an empty piece after a final `'\n'`; neither changes this set,
/// since every line is trimmed (`'\r'` is white space) and the empty line is left out.
pub open spec fn lines_of(lower: Seq<char>) -> Set<Seq<char>> {
    split_on(lower, '\n').map_values(|l: Seq<char>| clean_line(l)).to_set().remove(Seq::empty())
}

/// The identifier made from an already lowercased output: its distinct cleaned lines in
/// ascending order, joined by `|`, with the white space at both ends of the whole taken off.
pub open spec fn id_from_lowered(lower: Seq<char>) -> Seq<char> {
    trim(join_with(sorted_listing(lines_of(lower)), '|'))
}

/// The distinct non-empty cleaned lines of the lowercased output.
pub open spec fn machine_id_lines(output: Seq<char>) -> Set<Seq<char>> {
    lines_of(lowercase(output))
}

/// The identifier made from the command output.
pub open spec fn processed_output(output: Seq<char>) -> Seq<char> {
    id_from_lowered(lowercase(output))
}

/// Merges the lines printed by the machine-id sources into one identifier.
pub fn process_output(output_str: &str) -> (r: String)
    ensures
        r@ == processed_output(output_str@),
        is_ascii_chars(output_str@) ==> r@ == id_from_lowered(ascii_lowercase(output_str@)),
{
    let lower = str_to_lowercase(output_str);
    let chars = chars_of(lower.as_str());
    let lines = split_chars(chars.as_slice(), '\n');
    let ghost cleaned = contents(lines@).map_values(|l: Seq<char>| clean_line(l));
    let mut parts: Vec<Vec<char>> = Vec::new();
    let mut i: usize = 0;
    assert(cleaned.take(0).to_set().remove(Seq::empty()) =~= contents(parts@).to_set());
    while i < lines.len()
        invariant
            i <= lines@.len() == cleaned.len(),
            cleaned == contents(lines@).map_values(|l: Seq<char>| clean_line(l)),
            strictly_sorted(contents(parts@)),
            contents(parts@).to_set() == cleaned.take(i as int).to_set().remove(Seq::empty()),
        decreases lines@.len() - i,
    {
        let trimmed = trim_chars(lines[i].as_slice());
        let c = remove_char(trimmed.as_slice(), '-');
        let ghost prev = contents(parts@).to_set();
        assert(cleaned[i as int] == c@);
        let ghost cv = c@;
        proof {
            let a = cleaned.take(i as int);
            let b = cleaned.take(i + 1);
            assert forall|y: Seq<char>| b.contains(y) <==> (a.contains(y) || y == cv) by {
                if b.contains(y) {
                    let m = choose|m: int| 0 <= m < b.len() && b[m] == y;
                    if m < i {
                        assert(a[m] == y);
                    }
                }
                if a.contains(y) {
                    let m = choose|m: int| 0 <= m < a.len() && a[m] == y;
                    assert(b[m] == y);
                }
                if y == cv {
                    assert(b[i as int] == y);
                }
            }
        }
        if c.len() > 0 {
            insert_sorted(&mut parts, c);
        } else {
            assert(cv =~= Seq::<char>::empty());
        }
        assert(contents(parts@).to_set() =~= cleaned.take(i + 1).to_set().remove(Seq::empty()));
        i = i + 1;
    }
    assert(cleaned.take(lines@.len() as int) == cleaned);
    proof {
        lemma_sorted_listing_of(contents(parts@));
    }
    let joined = join_chars(&parts, '|');
    let r = trim_chars(joined.as_slice());
    string_of(r.as_slice())
}

/// The Linux machine identifier from the output of the machine-id sources; refused when
/// that output holds no identifier.
pub fn get_mid_result(machine_output: &str) -> (r: Result<String, MIDError>)
    ensures
        match r {
            Ok(s) => s@ == processed_output(machine_output@) && s@.len() > 0,
            Err(e) => e == MIDError::ResultMidError && processed_output(machine_output@).len()
                == 0,
        },
{
    let combined = process_output(machine_output);
    if combined.as_str().is_empty() {
        return Err(MIDError::ResultMidError);
    }
    Ok(combined)
}


/// The identifier lists every distinct non-empty cleaned line of the output exactly once, in
/// ascending order, and none of the listed lines holds a `-`.
pub proof fn law_lines_deduplicated_and_sorted(output: Seq<char>)
    ensures
        strictly_sorted(sorted_listing(machine_id_lines(output))),
        sorted_listing(machine_id_lines(output)).to_set() == machine_id_lines(output),
        forall|i: int|
            0 <= i < sorted_listing(machine_id_lines(output)).len() ==> {
                &&& (#[trigger] sorted_listing(machine_id_lines(output))[i]).len() > 0
                &&& !sorted_listing(machine_id_lines(output))[i].contains('-')
            },
{
    let cleaned = split_on(lowercase(output), '\n').map_values(|l: Seq<char>| clean_line(l));
    lemma_non_empty_members(cleaned);
    lemma_sorted_listing_exists(non_empty(cleaned));
    let listing = sorted_listing(machine_id_lines(output));
    assert forall|i: int| 0 <= i < listing.len() implies {
        &&& (#[trigger] listing[i]).len() > 0
        &&& !listing[i].contains('-')
    } by {
        assert(listing.to_set().contains(listing[i]));
        assert(listing[i] != Seq::<char>::empty());
        assert(cleaned.contains(listing[i]));
        let k = choose|k: int| 0 <= k < cleaned.len() && cleaned[k] == listing[i];
        let line = split_on(lowercase(output), '\n')[k];
        lemma_remove_all_absent(trim(line), '-');
        if listing[i].len() == 0 {
            assert(listing[i] =~= Seq::<char>::empty());
        }
    }
}

/// Outputs with the same distinct cleaned lines, in whatever order and however often
/// repeated, give the same identifier.
pub proof fn law_same_lines_same_id(a: Seq<char>, b: Seq<char>)
    requires
        machine_id_lines(a) == machine_id_lines(b),
    ensures
        processed_output(a) == processed_output(b),
{
}


/// The cleaned lines of `x`, a line break, `y` are those of `x` and those of `y`.
pub proof fn lemma_lines_of_concat(x: Seq<char>, y: Seq<char>)
    ensures
        lines_of(x.push('\n') + y) == lines_of(x).union(lines_of(y)),
{
    lemma_split_on_concat(x, y, '\n');
    let px = split_on(x, '\n');
    let py = split_on(y, '\n');
    let mx = px.map_values(|l: Seq<char>| clean_line(l));
    let my = py.map_values(|l: Seq<char>| clean_line(l));
    let m = split_on(x.push('\n') + y, '\n').map_values(|l: Seq<char>| clean_line(l));
    assert(m =~= mx + my);
    assert forall|d: Seq<char>| m.contains(d) <==> mx.contains(d) || my.contains(d) by {
        if m.contains(d) {
            let k = choose|k: int| 0 <= k < m.len() && m[k] == d;
            if k < mx.len() {
                assert(mx[k] == d);
            } else {
                assert(my[k - mx.len()] == d);
            }
        }
        if mx.contains(d) {
            let k = choose|k: int| 0 <= k < mx.len() && mx[k] == d;
            assert(m[k] == d);
        }
        if my.contains(d) {
            let k = choose|k: int| 0 <= k < my.len() && my[k] == d;
            assert(m[k + mx.len()] == d);
        }
    }
    assert(lines_of(x.push('\n') + y) =~= lines_of(x).union(lines_of(y)));
}

/// For ASCII outputs, neither the order of two groups of source lines nor a repeated group
/// changes the identifier.
pub proof fn law_ascii_line_order_and_repetition(a: Seq<char>, b: Seq<char>)
    requires
        is_ascii_chars(a),
        is_ascii_chars(b),
    ensures
        id_from_lowered(ascii_lowercase(a + seq!['\n'] + b)) == id_from_lowered(
            ascii_lowercase(b + seq!['\n'] + a),
        ),
        id_from_lowered(ascii_lowercase(a + seq!['\n'] + a)) == id_from_lowered(ascii_lowercase(a)),
{
    let la = ascii_lowercase(a);
    let lb = ascii_lowercase(b);
    let nl = seq!['\n'];
    assert(ascii_lowercase(nl) =~= nl);
    lemma_ascii_lowercase_concat(a, nl);
    lemma_ascii_lowercase_concat(a + nl, b);
    lemma_ascii_lowercase_concat(b, nl);
    lemma_ascii_lowercase_concat(b + nl, a);
    lemma_ascii_lowercase_concat(a + nl, a);
    assert(ascii_lowercase(a + nl + b) =~= la.push('\n') + lb);
    assert(ascii_lowercase(b + nl + a) =~= lb.push('\n') + la);
    assert(ascii_lowercase(a + nl + a) =~= la.push('\n') + la);
    lemma_lines_of_concat(la, lb);
    lemma_lines_of_concat(lb, la);
    lemma_lines_of_concat(la, la);
    assert(lines_of(la).union(lines_of(lb)) =~= lines_of(lb).union(lines_of(la)));
    assert(lines_of(la).union(lines_of(la)) =~= lines_of(la));
}

/// The identifier made from a text of lowercase ASCII characters is itself such a text,
/// without line breaks or `-`.
pub proof fn lemma_id_chars(low: Seq<char>)
    requires
        forall|d: char| low.contains(d) ==> is_lower_ascii(d),
    ensures
        forall|d: char|
            #[trigger] id_from_lowered(low).contains(d) ==> is_lower_ascii(d) && d != '\n' && d
                != '-',
{
    let pieces = split_on(low, '\n');
    let cleaned = pieces.map_values(|l: Seq<char>| clean_line(l));
    lemma_split_on_chars(low, '\n');
    lemma_non_empty_members(cleaned);
    lemma_sorted_listing_exists(non_empty(cleaned));
    let listing = sorted_listing(lines_of(low));
    let joined = join_with(listing, '|');
    assert forall|k: int, d: char| 0 <= k < listing.len() && #[trigger] listing[k].contains(d) implies is_lower_ascii(d) && d != '\n' && d != '-' by {
        assert(listing.to_set().contains(listing[k]));
        assert(cleaned.contains(listing[k]));
        let m = choose|m: int| 0 <= m < cleaned.len() && cleaned[m] == listing[k];
        lemma_remove_all_chars(trim(pieces[m]), '-');
        lemma_trim_chars(pieces[m]);
        assert(pieces[m].contains(d));
    }
    lemma_join_with_chars(listing, '|');
    lemma_trim_chars(joined);
    assert forall|d: char| id_from_lowered(low).contains(d) implies is_lower_ascii(d) && d != '\n' && d != '-' by {
        assert(joined.contains(d));
        if d != '|' {
            let k = choose|k: int| 0 <= k < listing.len() && (#[trigger] listing[k]).contains(d);
            assert(listing[k].contains(d));
        }
    }
}

/// For ASCII outputs, making the identifier of an identifier gives it back unchanged.
pub proof fn law_ascii_process_output_idempotent(output: Seq<char>)
    requires
        is_ascii_chars(output),
    ensures
        is_ascii_chars(id_from_lowered(ascii_lowercase(output))),
        id_from_lowered(ascii_lowercase(id_from_lowered(ascii_lowercase(output)))) == id_from_lowered(
            ascii_lowercase(output),
        ),
{
    let low = ascii_lowercase(output);
    lemma_ascii_lowercase_chars(output);
    lemma_id_chars(low);
    let out = id_from_lowered(low);
    lemma_ascii_lowercase_fixed(out);
    assert(!out.contains('\n'));
    assert(!out.contains('-'));
    lemma_split_on_single(out, '\n');
    let joined = join_with(sorted_listing(lines_of(low)), '|');
    lemma_trim_idempotent(joined);
    assert(trim(out) == out);
    lemma_remove_all_none(out, '-');
    assert(clean_line(out) == out);
    assert(seq![out].map_values(|l: Seq<char>| clean_line(l)) =~= seq![out]);
    if out.len() == 0 {
        assert(out =~= Seq::<char>::empty());
        let e = Seq::<Seq<char>>::empty();
        lemma_sorted_listing_of(e);
        assert(lines_of(out) =~= e.to_set());
        assert(id_from_lowered(out) =~= out);
    } else {
        let one = seq![out];
        assert(strictly_sorted(one));
        lemma_sorted_listing_of(one);
        assert(lines_of(out) =~= one.to_set());
        assert(join_with(one, '|') == out);
    }
}

} // verus!
