//! Parsing of the delimited text inputs: the manifest table and the
//! key/count dump produced by the external counting tool.

use vstd::prelude::*;

use crate::error::PublicError;
use crate::record::{contains_key_spec, lemma_lookup_some, lemma_remove_key, lemma_sum_bounds,
    lookup_weight_spec, remove_key_spec, sum_weights_spec, EntryView, SampleRecord, WeightTable};

verus! {

/// The views of a sequence of strings.
pub open spec fn str_views(v: Seq<String>) -> Seq<Seq<char>> {
    v.map_values(|t: String| t@)
}

/// Splitting on `sep`, as `str::split` does for a one-character separator:
/// an empty input yields one empty field, and every occurrence of `sep`
/// closes the current field.
pub open spec fn split_spec(s: Seq<char>, sep: char) -> Seq<Seq<char>>
    decreases s.len(),
{
    if s.len() == 0 {
        seq![Seq::<char>::empty()]
    } else if s[0] == sep {
        seq![Seq::<char>::empty()] + split_spec(s.drop_first(), sep)
    } else {
        let rest = split_spec(s.drop_first(), sep);
        seq![seq![s[0]] + rest[0]] + rest.drop_first()
    }
}

pub proof fn lemma_split_len(s: Seq<char>, sep: char)
    ensures
        split_spec(s, sep).len() >= 1,
    decreases s.len(),
{
    if s.len() > 0 {
        lemma_split_len(s.drop_first(), sep);
    }
}

/// A separator-free text is one single field.
pub proof fn lemma_split_no_sep(s: Seq<char>, sep: char)
    requires
        forall|j: int| 0 <= j < s.len() ==> s[j] != sep,
    ensures
        split_spec(s, sep) == seq![s],
    decreases s.len(),
{
    if s.len() == 0 {
        assert(split_spec(s, sep) =~~= seq![s]);
    } else {
        let rest = s.drop_first();
        assert forall|j: int| 0 <= j < rest.len() implies rest[j] != sep by {
            assert(rest[j] == s[j + 1]);
        }
        lemma_split_no_sep(rest, sep);
        lemma_split_len(rest, sep);
        assert(seq![s[0]] + rest =~= s);
        assert(split_spec(s, sep) =~~= seq![s]);
    }
}

/// Splitting at the first separator occurrence: the text before it is the
/// first field and the rest is split on its own.
pub proof fn lemma_split_at_sep(s: Seq<char>, sep: char, i: int)
    requires
        0 <= i < s.len(),
        s[i] == sep,
        forall|j: int| 0 <= j < i ==> s[j] != sep,
    ensures
        split_spec(s, sep) == seq![s.take(i)] + split_spec(s.skip(i + 1), sep),
    decreases i,
{
    if i == 0 {
        assert(s.take(0) =~= Seq::<char>::empty());
        assert(s.skip(1) =~= s.drop_first());
        assert(split_spec(s, sep) =~~= seq![s.take(0)] + split_spec(s.skip(1), sep));
    } else {
        let rest = s.drop_first();
        assert(rest[i - 1] == s[i]);
        assert forall|j: int| 0 <= j < i - 1 implies rest[j] != sep by {
            assert(rest[j] == s[j + 1]);
        }
        lemma_split_at_sep(rest, sep, i - 1);
        lemma_split_len(s.skip(i + 1), sep);
        assert(rest.take(i - 1) =~= s.take(i).drop_first());
        assert(rest.skip(i) =~= s.skip(i + 1));
        assert(seq![s[0]] + s.take(i).drop_first() =~= s.take(i));
        assert(split_spec(s, sep) =~~= seq![s.take(i)] + split_spec(s.skip(i + 1), sep));
    }
}

/// Split `s` at every occurrence of `sep`, as `str::split(sep)` does.
pub fn split_on(s: &str, sep: char) -> (r: Vec<String>)
    ensures
        str_views(r@) == split_spec(s@, sep),
{
    let n = s.unicode_len();
    let mut out: Vec<String> = Vec::new();
    let mut start: usize = 0;
    let mut i: usize = 0;
    proof {
        assert(s@.skip(0) =~= s@);
        assert(str_views(out@) =~~= Seq::<Seq<char>>::empty());
        assert(split_spec(s@, sep) =~~= str_views(out@) + split_spec(s@.skip(0), sep));
    }
    while i < n
        invariant
            n == s@.len(),
            0 <= start <= i <= n,
            forall|j: int| start <= j < i ==> s@[j] != sep,
            split_spec(s@, sep) == str_views(out@) + split_spec(s@.skip(start as int), sep),
        decreases n - i,
    {
        let c = s.get_char(i);
        if c == sep {
            let field = s.substring_char(start, i).to_owned();
            proof {
                let tail = s@.skip(start as int);
                assert forall|j: int| 0 <= j < i - start implies tail[j] != sep by {
                    assert(tail[j] == s@[start + j]);
                }
                assert(tail[i - start] == s@[i as int]);
                lemma_split_at_sep(tail, sep, i - start);
                assert(tail.take(i - start) =~= s@.subrange(start as int, i as int));
                assert(tail.skip(i - start + 1) =~= s@.skip(i + 1));
                assert(str_views(out@.push(field)) =~~= str_views(out@) + seq![field@]);
            }
            out.push(field);
            start = i + 1;
        }
        i = i + 1;
    }
    let last = s.substring_char(start, n).to_owned();
    proof {
        let tail = s@.skip(start as int);
        assert forall|j: int| 0 <= j < tail.len() implies tail[j] != sep by {
            assert(tail[j] == s@[start + j]);
        }
        lemma_split_no_sep(tail, sep);
        assert(tail =~= s@.subrange(start as int, n as int));
        assert(str_views(out@.push(last)) =~~= str_views(out@) + seq![last@]);
    }
    out.push(last);
    proof {
        assert(str_views(out@) =~~= split_spec(s@, sep));
    }
    out
}

/// `s` with every trailing newline removed.
pub open spec fn trim_newlines_spec(s: Seq<char>) -> Seq<char>
    decreases s.len(),
{
    if s.len() > 0 && s.last() == '\n' {
        trim_newlines_spec(s.drop_last())
    } else {
        s
    }
}

/// Remove every trailing newline, as `str::trim_end_matches("\n")` does.
pub fn trim_newlines(s: &str) -> (r: String)
    ensures
        r@ == trim_newlines_spec(s@),
{
    let n = s.unicode_len();
    let mut e: usize = n;
    proof {
        assert(s@.take(n as int) =~= s@);
    }
    while e > 0 && s.get_char(e - 1) == '\n'
        invariant
            n == s@.len(),
            0 <= e <= n,
            trim_newlines_spec(s@) == trim_newlines_spec(s@.take(e as int)),
        decreases e,
    {
        proof {
            let cur = s@.take(e as int);
            assert(cur.last() == s@[e - 1]);
            assert(cur.drop_last() =~= s@.take(e - 1));
        }
        e = e - 1;
    }
    let r = s.substring_char(0, e).to_owned();
    proof {
        let cur = s@.take(e as int);
        if e > 0 {
            assert(cur.last() == s@[e - 1]);
        }
        assert(trim_newlines_spec(cur) == cur);
        assert(s@.subrange(0, e as int) =~= cur);
    }
    r
}

/// The views of the rows of a parsed record table.
pub open spec fn rows_views(v: Seq<Vec<String>>) -> Seq<Seq<Seq<char>>> {
    v.map_values(|row: Vec<String>| str_views(row@))
}

/// What a record-oriented text table denotes: trailing newlines dropped,
/// one row per line, fields separated by tabs.
pub open spec fn tsv_spec(s: Seq<char>) -> Seq<Seq<Seq<char>>> {
    split_spec(trim_newlines_spec(s), '\n').map_values(|line: Seq<char>| split_spec(line, '\t'))
}

/// Parse a record-oriented text table: tolerate trailing newlines, one
/// record per line, tab-separated fields.
pub fn parse_tsv(contents: &str) -> (r: Vec<Vec<String>>)
    ensures
        rows_views(r@) == tsv_spec(contents@),
{
    let trimmed = trim_newlines(contents);
    let lines = split_on(trimmed.as_str(), '\n');
    let n = lines.len();
    let mut out: Vec<Vec<String>> = Vec::new();
    let ghost wanted = tsv_spec(contents@);
    proof {
        assert(rows_views(out@) =~~= wanted.take(0));
    }
    let mut i: usize = 0;
    while i < n
        invariant
            n == lines@.len(),
            0 <= i <= n,
            str_views(lines@) == split_spec(trim_newlines_spec(contents@), '\n'),
            wanted == tsv_spec(contents@),
            rows_views(out@) == wanted.take(i as int),
        decreases n - i,
    {
        let fields = split_on(lines[i].as_str(), '\t');
        let ghost prev = out@;
        proof {
            assert(str_views(lines@)[i as int] == lines@[i as int]@);
            assert(wanted[i as int] == split_spec(str_views(lines@)[i as int], '\t'));
        }
        out.push(fields);
        proof {
            assert(rows_views(out@) =~~= rows_views(prev).push(wanted[i as int]));
            assert(wanted.take(i + 1) =~~= wanted.take(i as int).push(wanted[i as int]));
        }
        i = i + 1;
    }
    proof {
        assert(wanted.take(n as int) =~~= wanted);
    }
    out
}

/// Is `c` a decimal digit?
pub open spec fn is_digit_char(c: char) -> bool {
    48 <= c as int <= 57
}

/// The value of a decimal digit.
pub open spec fn digit_val(c: char) -> int {
    c as int - 48
}

/// Every character of `s` is a decimal digit.
pub open spec fn all_digits(s: Seq<char>) -> bool {
    forall|i: int| 0 <= i < s.len() ==> is_digit_char(s[i])
}

/// The number denoted by a digit text, most significant digit first.
pub open spec fn digits_value(s: Seq<char>) -> int
    decreases s.len(),
{
    if s.len() == 0 {
        0
    } else {
        digits_value(s.drop_last()) * 10 + digit_val(s.last())
    }
}

/// The digits of a count text: an optional leading plus sign is dropped,
/// as `str::parse` for an unsigned integer accepts one.
pub open spec fn digits_part(s: Seq<char>) -> Seq<char> {
    if s.len() > 0 && s[0] == '+' {
        s.drop_first()
    } else {
        s
    }
}

/// What parsing a count field yields: its digit value when the text is a
/// well-formed non-negative number that fits the machine word, else nothing.
pub open spec fn count_spec(s: Seq<char>) -> Option<usize> {
    let d = digits_part(s);
    if d.len() > 0 && all_digits(d) && digits_value(d) <= usize::MAX {
        Some(digits_value(d) as usize)
    } else {
        None
    }
}

pub proof fn lemma_digits_value_nonneg(s: Seq<char>)
    requires
        all_digits(s),
    ensures
        digits_value(s) >= 0,
    decreases s.len(),
{
    if s.len() > 0 {
        assert forall|i: int| 0 <= i < s.drop_last().len() implies is_digit_char(
            s.drop_last()[i],
        ) by {
            assert(s.drop_last()[i] == s[i]);
        }
        lemma_digits_value_nonneg(s.drop_last());
    }
}

/// A digit text denotes at least as much as any of its prefixes.
pub proof fn lemma_digits_value_prefix_le(s: Seq<char>, j: int)
    requires
        all_digits(s),
        0 <= j <= s.len(),
    ensures
        digits_value(s.take(j)) <= digits_value(s),
    decreases s.len() - j,
{
    if j < s.len() {
        let t = s.take(j + 1);
        assert forall|i: int| 0 <= i < t.len() implies is_digit_char(t[i]) by {
            assert(t[i] == s[i]);
        }
        assert(t.drop_last() =~= s.take(j));
        assert(t.last() == s[j]);
        lemma_digits_value_nonneg(s.take(j));
        assert(digits_value(s.take(j)) <= digits_value(t));
        lemma_digits_value_prefix_le(s, j + 1);
    } else {
        assert(s.take(j) =~= s);
    }
}

/// Parse a count field: decimal digits after an optional leading plus sign.
pub fn parse_count(s: &str) -> (r: Option<usize>)
    ensures
        r == count_spec(s@),
{
    let n = s.unicode_len();
    let mut off: usize = 0;
    if n > 0 && s.get_char(0) == '+' {
        off = 1;
    }
    let ghost d = digits_part(s@);
    proof {
        assert(d =~= s@.skip(off as int));
    }
    if off == n {
        return None;
    }
    let mut acc: usize = 0;
    let mut k: usize = off;
    proof {
        assert(d.take(0) =~= Seq::<char>::empty());
    }
    while k < n
        invariant
            n == s@.len(),
            off <= k <= n,
            off < n,
            d == digits_part(s@),
            d == s@.skip(off as int),
            d.len() == n - off,
            forall|i: int| 0 <= i < k - off ==> is_digit_char(d[i]),
            acc == digits_value(d.take(k - off)),
        decreases n - k,
    {
        let c = s.get_char(k);
        let u = c as u32;
        proof {
            assert(d[k - off] == s@[k as int]);
            assert(u as int == c as int);
        }
        if u < 48 || u > 57 {
            proof {
                assert(!is_digit_char(d[k - off]));
                assert(!all_digits(d));
            }
            return None;
        }
        let dv = (u - 48) as usize;
        proof {
            assert(is_digit_char(d[k - off]));
            assert(digit_val(d[k - off]) == dv as int);
            assert(d.take(k - off + 1).drop_last() =~= d.take(k - off));
            assert(d.take(k - off + 1).last() == d[k - off]);
        }
        if acc > (usize::MAX - dv) / 10 {
            // The value does not fit: no later digit can shrink it.
            proof {
                assert(digits_value(d.take(k - off + 1)) == acc * 10 + dv);
                assert(acc * 10 + dv > usize::MAX) by (nonlinear_arith)
                    requires
                        acc > (usize::MAX - dv) / 10,
                        dv <= usize::MAX,
                ;
                assert forall|i: int| 0 <= i < d.len() implies is_digit_char(d[i]) || !all_digits(
                    d,
                ) by {}
                if all_digits(d) {
                    lemma_digits_value_prefix_le(d, k - off + 1);
                }
            }
            return None;
        }
        proof {
            assert(acc * 10 + dv <= usize::MAX) by (nonlinear_arith)
                requires
                    acc <= (usize::MAX - dv) / 10,
                    0 <= dv,
                    0 <= acc,
            ;
        }
        acc = acc * 10 + dv;
        k = k + 1;
    }
    proof {
        assert(d.take(n - off) =~= d);
    }
    Some(acc)
}

/// The running state of a dump parse: the total so far and the entries so
/// far.
pub type DumpState = (int, Seq<EntryView>);

/// One line of the dump folded into the state.  An empty line is skipped;
/// otherwise the line must have at least two tab-separated fields and a
/// count field that parses.  A key seen before replaces the earlier entry
/// — the last occurrence wins — and the running total follows the table,
/// so it always equals the sum of the entries kept.  A total past the
/// machine word is refused.
pub open spec fn ingest_line_spec(st: DumpState, line: Seq<char>) -> Option<DumpState> {
    if line.len() == 0 {
        Some(st)
    } else {
        let fields = split_spec(line, '\t');
        if fields.len() < 2 {
            None
        } else {
            match count_spec(fields[1]) {
                None => None,
                Some(w) => {
                    let kept = if contains_key_spec(st.1, fields[0]) {
                        st.0 - lookup_weight_spec(st.1, fields[0])
                    } else {
                        st.0
                    };
                    let table = if contains_key_spec(st.1, fields[0]) {
                        remove_key_spec(st.1, fields[0])
                    } else {
                        st.1
                    };
                    if kept + w > usize::MAX {
                        None
                    } else {
                        Some((kept + w, table.push((fields[0], w))))
                    }
                },
            }
        }
    }
}

/// All lines folded in order from `st`.
pub open spec fn run_lines_spec(lines: Seq<Seq<char>>, st: DumpState) -> Option<DumpState>
    decreases lines.len(),
{
    if lines.len() == 0 {
        Some(st)
    } else {
        match ingest_line_spec(st, lines[0]) {
            None => None,
            Some(st2) => run_lines_spec(lines.drop_first(), st2),
        }
    }
}

/// What a whole dump text denotes: the lines of the text folded from the
/// empty state.
pub open spec fn dump_spec(s: Seq<char>) -> Option<DumpState> {
    run_lines_spec(split_spec(s, '\n'), (0, Seq::empty()))
}

/// Appending one weight to a table adds it to the table's sum.
pub proof fn lemma_sum_push(m: Seq<EntryView>, e: EntryView)
    ensures
        sum_weights_spec(m.push(e)) == sum_weights_spec(m) + e.1,
    decreases m.len(),
{
    if m.len() == 0 {
        assert(m.push(e)[0] == e);
        assert(m.push(e).drop_first() =~~= Seq::<EntryView>::empty());
        assert(sum_weights_spec(Seq::<EntryView>::empty()) == 0);
        assert(sum_weights_spec(m) == 0);
        assert(sum_weights_spec(m.push(e)) == e.1 + sum_weights_spec(m.push(e).drop_first()));
    } else {
        assert(m.push(e)[0] == m[0]);
        assert(m.push(e).drop_first() =~~= m.drop_first().push(e));
        lemma_sum_push(m.drop_first(), e);
        assert(sum_weights_spec(m.push(e)) == m[0].1 + sum_weights_spec(m.push(e).drop_first()));
        assert(sum_weights_spec(m) == m[0].1 + sum_weights_spec(m.drop_first()));
    }
}

/// Parse the text dump of a count table: one `key<TAB>count` record per
/// line, empty lines skipped, extra fields ignored, and a repeated key
/// replaced by its last occurrence.  Returns the key table and the sum of
/// the weights it keeps, exactly when the text is well-formed: every
/// non-empty line has at least two fields and a count field that parses
/// as a non-negative integer, and the total fits the machine word.  Any
/// malformed input is a `DataError`.
pub fn parse_hash_counts(dump: &str) -> (r: Result<(usize, WeightTable), PublicError>)
    ensures
        match r {
            Ok((total, table)) => {
                &&& dump_spec(dump@) == Some((total as int, table@))
                &&& table.wf()
                &&& total == sum_weights_spec(table@)
            },
            Err(e) => {
                &&& dump_spec(dump@) is None
                &&& e is DataError
            },
        },
{
    let lines = split_on(dump, '\n');
    let n = lines.len();
    let mut total: usize = 0;
    let mut table = WeightTable::new();
    let mut i: usize = 0;
    let ghost lv = str_views(lines@);
    proof {
        assert(lv.skip(0) =~= lv);
    }
    while i < n
        invariant
            n == lines@.len(),
            0 <= i <= n,
            lv == str_views(lines@),
            dump_spec(dump@) == run_lines_spec(lv.skip(i as int), (total as int, table@)),
            table.wf(),
            total == sum_weights_spec(table@),
        decreases n - i,
    {
        let ghost st: DumpState = (total as int, table@);
        let ghost tail = lv.skip(i as int);
        proof {
            assert(tail[0] == lv[i as int]);
            assert(lv[i as int] == lines@[i as int]@);
            assert(tail.drop_first() =~= lv.skip(i + 1));
        }
        let line = &lines[i];
        if !line.as_str().is_empty() {
            let fields = split_on(line.as_str(), '\t');
            proof {
                assert(str_views(fields@) == split_spec(line@, '\t'));
            }
            if fields.len() < 2 {
                return Err(
                    PublicError::DataError(String::from_str("row has fewer than two fields")),
                );
            }
            proof {
                assert(str_views(fields@)[1] == fields@[1]@);
                assert(str_views(fields@)[0] == fields@[0]@);
            }
            let w = match parse_count(fields[1].as_str()) {
                Some(w) => w,
                None => {
                    return Err(PublicError::DataError(String::from_str("count field is not a non-negative integer")));
                },
            };
            let ghost before = table@;
            let key_present = table.contains_key(&fields[0]);
            let mut kept: usize = total;
            if key_present {
                // The last occurrence wins: drop the earlier entry and
                // take its weight back out of the running total.
                let old_w = match table.get(&fields[0]) {
                    Some(x) => x,
                    None => 0,
                };
                proof {
                    lemma_lookup_some(before, fields@[0]@);
                    assert(old_w == lookup_weight_spec(before, fields@[0]@));
                    lemma_sum_bounds(before, fields@[0]@);
                    lemma_remove_key(before, fields@[0]@);
                }
                table.remove_key(&fields[0]);
                kept = total - old_w;
            }
            let new_total = match kept.checked_add(w) {
                Some(t) => t,
                None => {
                    return Err(PublicError::DataError(String::from_str("total weight overflows")));
                },
            };
            let key = fields[0].clone();
            let ghost mid = table@;
            proof {
                assert(!contains_key_spec(mid, fields@[0]@));
            }
            table.insert(key, w);
            proof {
                lemma_sum_push(mid, (fields@[0]@, w));
                assert forall|a: int, b: int| 0 <= a < b < table@.len() implies table@[a].0
                    != table@[b].0 by {
                    if b < mid.len() {
                    } else {
                        assert(table@[b] == (fields@[0]@, w));
                        assert(!contains_key_spec(mid, fields@[0]@));
                        assert(table@[a] == mid[a]);
                    }
                }
            }
            total = new_total;
        }
        i = i + 1;
        proof {
            assert(run_lines_spec(tail, st) == run_lines_spec(
                lv.skip(i as int),
                (total as int, table@),
            ));
        }
    }
    proof {
        assert(lv.skip(n as int) =~= Seq::<Seq<char>>::empty());
    }
    Ok((total, table))
}


/// Parse a count-table dump into a ready sample record: the record is
/// well-formed — its stored total is the sum of its table's weights — and
/// carries the path it was read from.
pub fn record_from_dump(source_path: String, dump: &str) -> (r: Result<SampleRecord, PublicError>)
    ensures
        match r {
            Ok(rec) => {
                &&& rec.wf()
                &&& rec.source_path@ == source_path@
                &&& dump_spec(dump@) == Some((rec.total_weight as int, rec.weights@))
            },
            Err(e) => {
                &&& dump_spec(dump@) is None
                &&& e is DataError
            },
        },
{
    match parse_hash_counts(dump) {
        Ok((total, table)) => Ok(SampleRecord::new(source_path, total, table)),
        Err(e) => Err(e),
    }
}

} // verus!
