use vstd::prelude::*;
use vstd::string::StrSliceExecFns;

verus! {

/// A whitespace character of the puzzle text format.
pub open spec fn is_space(c: char) -> bool {
    c == ' ' || c == '\t' || c == '\r' || c == '\n'
}

/// `s` without its leading whitespace.
pub open spec fn trim_front(s: Seq<char>) -> Seq<char>
    decreases s.len(),
{
    if s.len() > 0 && is_space(s[0]) {
        trim_front(s.drop_first())
    } else {
        s
    }
}

/// `s` without its trailing whitespace.
pub open spec fn trim_back(s: Seq<char>) -> Seq<char>
    decreases s.len(),
{
    if s.len() > 0 && is_space(s.last()) {
        trim_back(s.drop_last())
    } else {
        s
    }
}

/// `s` without leading and trailing whitespace.
pub open spec fn trimmed(s: Seq<char>) -> Seq<char> {
    trim_back(trim_front(s))
}

/// The four-character row delimiter the format embeds: an escaped
/// carriage return and an escaped line feed.
pub open spec fn delim_at(s: Seq<char>, i: int) -> bool {
    &&& 0 <= i
    &&& i + 4 <= s.len()
    &&& s[i] == '\\'
    &&& s[i + 1] == 'r'
    &&& s[i + 2] == '\\'
    &&& s[i + 3] == 'n'
}

/// The rows of `s` from position `cur` on, the current row having begun
/// at `start`: rows are separated by the four-character delimiter.
pub open spec fn split_rows_from(s: Seq<char>, start: int, cur: int) -> Seq<Seq<char>>
    decreases s.len() - cur,
{
    if cur + 4 <= s.len() && delim_at(s, cur) {
        seq![s.subrange(start, cur)] + split_rows_from(s, cur + 4, cur + 4)
    } else if cur < s.len() {
        split_rows_from(s, start, cur + 1)
    } else {
        seq![s.subrange(start, s.len() as int)]
    }
}

/// The rows of `s`.
pub open spec fn split_rows(s: Seq<char>) -> Seq<Seq<char>> {
    split_rows_from(s, 0, 0)
}

/// A row the matrix keeps: non-empty and not the stray quote the format
/// leaves at its edges.
pub open spec fn keep_row(r: Seq<char>) -> bool {
    r.len() != 0 && !(r.len() == 1 && r[0] == '"')
}

/// The whitespace-separated tokens of `s` from position `cur` on; when
/// `in_tok` a token began at `tok_start` and is still open.
pub open spec fn tokens_from(s: Seq<char>, cur: int, tok_start: int, in_tok: bool) -> Seq<
    Seq<char>,
>
    decreases s.len() - cur,
{
    if s.len() <= cur {
        if in_tok {
            seq![s.subrange(tok_start, s.len() as int)]
        } else {
            Seq::empty()
        }
    } else if is_space(s[cur]) {
        if in_tok {
            seq![s.subrange(tok_start, cur)] + tokens_from(s, cur + 1, 0, false)
        } else {
            tokens_from(s, cur + 1, 0, false)
        }
    } else {
        if in_tok {
            tokens_from(s, cur + 1, tok_start, true)
        } else {
            tokens_from(s, cur + 1, cur, true)
        }
    }
}

/// The whitespace-separated tokens of `s`.
pub open spec fn tokens_of(s: Seq<char>) -> Seq<Seq<char>> {
    tokens_from(s, 0, 0, false)
}

/// The rows that the matrix keeps, in order.
pub open spec fn kept_rows(rows: Seq<Seq<char>>) -> Seq<Seq<char>>
    decreases rows.len(),
{
    if rows.len() == 0 {
        Seq::empty()
    } else {
        let rest = kept_rows(rows.drop_last());
        if keep_row(rows.last()) {
            rest.push(rows.last())
        } else {
            rest
        }
    }
}

/// Each row replaced by its whitespace-separated tokens.
pub open spec fn rows_tokens(rows: Seq<Seq<char>>) -> Seq<Seq<Seq<char>>>
    decreases rows.len(),
{
    if rows.len() == 0 {
        Seq::empty()
    } else {
        rows_tokens(rows.drop_last()).push(tokens_of(rows.last()))
    }
}

/// What `parse_matrix` reads out of a raw text block.
pub open spec fn matrix_of(s: Seq<char>) -> Seq<Seq<Seq<char>>> {
    rows_tokens(kept_rows(split_rows(trimmed(s))))
}

proof fn lemma_trim_front_skip(s: Seq<char>, k: int)
    requires
        0 <= k <= s.len(),
        forall|i: int| 0 <= i < k ==> is_space(#[trigger] s[i]),
        k == s.len() || !is_space(s[k]),
    ensures
        trim_front(s) == s.skip(k),
    decreases k,
{
    if k == 0 {
        assert(s.skip(0) =~= s);
    } else {
        assert(is_space(s[0]));
        let s1 = s.drop_first();
        assert forall|i: int| 0 <= i < k - 1 implies is_space(#[trigger] s1[i]) by {
            assert(s1[i] == s[i + 1]);
        }
        lemma_trim_front_skip(s1, k - 1);
        assert(s1.skip(k - 1) =~= s.skip(k));
    }
}

proof fn lemma_trim_back_take(s: Seq<char>, k: int)
    requires
        0 <= k <= s.len(),
        forall|i: int| k <= i < s.len() ==> is_space(#[trigger] s[i]),
        k == 0 || !is_space(s[k - 1]),
    ensures
        trim_back(s) == s.take(k),
    decreases s.len() - k,
{
    if k == s.len() {
        assert(s.take(k) =~= s);
    } else {
        assert(is_space(s.last()));
        let s1 = s.drop_last();
        lemma_trim_back_take(s1, k);
        assert(s1.take(k) =~= s.take(k));
    }
}

fn space_at(s: &str, i: usize) -> (r: bool)
    requires
        i < s@.len(),
    ensures
        r == is_space(s@[i as int]),
{
    let c = s.get_char(i);
    c == ' ' || c == '\t' || c == '\r' || c == '\n'
}

/// The slice of `s` without leading and trailing whitespace.
fn trim_str<'a>(s: &'a str) -> (r: &'a str)
    ensures
        r@ == trimmed(s@),
{
    let n = s.unicode_len();
    let mut start: usize = 0;
    while start < n && space_at(s, start)
        invariant
            n == s@.len(),
            0 <= start <= n,
            forall|i: int| 0 <= i < start ==> is_space(#[trigger] s@[i]),
        decreases n - start,
    {
        start += 1;
    }
    let mut end: usize = n;
    while end > start && space_at(s, end - 1)
        invariant
            n == s@.len(),
            start <= end <= n,
            forall|i: int| end <= i < n ==> is_space(#[trigger] s@[i]),
        decreases end,
    {
        end -= 1;
    }
    proof {
        lemma_trim_front_skip(s@, start as int);
        let s1 = s@.skip(start as int);
        assert forall|i: int| end - start <= i < s1.len() implies is_space(#[trigger] s1[i]) by {
            assert(s1[i] == s@[i + start]);
        }
        if end > start {
            assert(s1[end - start - 1] == s@[end - 1]);
        }
        lemma_trim_back_take(s1, end - start as int);
        assert(s1.take(end - start as int) =~= s@.subrange(start as int, end as int));
    }
    s.substring_char(start, end)
}

/// The rows of `s`, split on the four-character delimiter.
fn split_rows_exec<'a>(s: &'a str) -> (r: Vec<&'a str>)
    ensures
        r@.map_values(|t: &str| t@) == split_rows(s@),
{
    let n = s.unicode_len();
    let mut rows: Vec<&str> = Vec::new();
    let mut start: usize = 0;
    let mut cur: usize = 0;
    while cur < n
        invariant
            n == s@.len(),
            0 <= start <= cur <= n,
            split_rows(s@) == rows@.map_values(|t: &str| t@) + split_rows_from(
                s@,
                start as int,
                cur as int,
            ),
        decreases n - cur,
    {
        let is_delim = n >= 4 && cur <= n - 4 && s.get_char(cur) == '\\' && s.get_char(cur + 1)
            == 'r' && s.get_char(cur + 2) == '\\' && s.get_char(cur + 3) == 'n';
        if is_delim {
            let row = s.substring_char(start, cur);
            let ghost old_rows = rows@;
            rows.push(row);
            proof {
                assert(delim_at(s@, cur as int));
                assert(rows@.map_values(|t: &str| t@) =~= old_rows.map_values(|t: &str| t@).push(
                    s@.subrange(start as int, cur as int),
                ));
                assert(old_rows.map_values(|t: &str| t@).push(
                    s@.subrange(start as int, cur as int),
                ) =~= old_rows.map_values(|t: &str| t@) + seq![
                    s@.subrange(start as int, cur as int)
                ]);
            }
            cur += 4;
            start = cur;
        } else {
            proof {
                assert(!delim_at(s@, cur as int));
            }
            cur += 1;
        }
    }
    let row = s.substring_char(start, n);
    let ghost old_rows = rows@;
    rows.push(row);
    proof {
        assert(split_rows_from(s@, start as int, cur as int) == seq![
            s@.subrange(start as int, n as int)
        ]);
        assert(rows@.map_values(|t: &str| t@) =~= old_rows.map_values(|t: &str| t@) + seq![
            s@.subrange(start as int, n as int)
        ]);
    }
    rows
}

/// The whitespace-separated tokens of `row`.
fn row_tokens<'a>(row: &'a str) -> (r: Vec<&'a str>)
    ensures
        r@.map_values(|t: &str| t@) == tokens_of(row@),
{
    let n = row.unicode_len();
    let mut toks: Vec<&str> = Vec::new();
    let mut cur: usize = 0;
    let mut tok_start: usize = 0;
    let mut in_tok: bool = false;
    while cur < n
        invariant
            n == row@.len(),
            0 <= cur <= n,
            in_tok ==> tok_start <= cur,
            !in_tok ==> tok_start == 0,
            tokens_of(row@) == toks@.map_values(|t: &str| t@) + tokens_from(
                row@,
                cur as int,
                tok_start as int,
                in_tok,
            ),
        decreases n - cur,
    {
        if space_at(row, cur) {
            if in_tok {
                let t = row.substring_char(tok_start, cur);
                let ghost old_toks = toks@;
                toks.push(t);
                proof {
                    assert(toks@.map_values(|t: &str| t@) =~= old_toks.map_values(|t: &str| t@)
                        + seq![row@.subrange(tok_start as int, cur as int)]);
                }
                in_tok = false;
                tok_start = 0;
            }
        } else {
            if !in_tok {
                in_tok = true;
                tok_start = cur;
            }
        }
        cur += 1;
    }
    if in_tok {
        let t = row.substring_char(tok_start, n);
        let ghost old_toks = toks@;
        toks.push(t);
        proof {
            assert(toks@.map_values(|t: &str| t@) =~= old_toks.map_values(|t: &str| t@) + seq![
                row@.subrange(tok_start as int, n as int)
            ]);
        }
    }
    proof {
        assert(toks@.map_values(|t: &str| t@) + Seq::<Seq<char>>::empty() =~= toks@.map_values(
            |t: &str| t@,
        ));
    }
    toks
}

/// Reads a raw text block of the compressed puzzle format as a matrix:
/// the block is trimmed, split into rows on the escaped line breaks it
/// embeds, rid of empty rows and of the stray quote, and each row is
/// split on whitespace into its cells.
pub fn parse_matrix<'a>(input: &'a str) -> (r: Vec<Vec<&'a str>>)
    ensures
        r@.map_values(|row: Vec<&'a str>| row@.map_values(|t: &str| t@)) == matrix_of(input@),
{
    let t = trim_str(input);
    let rows = split_rows_exec(t);
    let ghost row_views = rows@.map_values(|t: &str| t@);
    let mut out: Vec<Vec<&'a str>> = Vec::new();
    let nr = rows.len();
    let mut i: usize = 0;
    while i < nr
        invariant
            nr == rows@.len(),
            0 <= i <= nr,
            row_views == rows@.map_values(|t: &str| t@),
            row_views == split_rows(trimmed(input@)),
            out@.map_values(|row: Vec<&'a str>| row@.map_values(|t: &str| t@)) == rows_tokens(
                kept_rows(row_views.take(i as int)),
            ),
        decreases nr - i,
    {
        let row = rows[i];
        let len = row.unicode_len();
        let keep = len != 0 && !(len == 1 && row.get_char(0) == '"');
        proof {
            assert(keep == keep_row(row_views[i as int]));
            let tk = row_views.take(i + 1 as int);
            assert(tk.drop_last() =~= row_views.take(i as int));
            assert(tk.last() == row_views[i as int]);
        }
        if keep {
            let toks = row_tokens(row);
            let ghost old_out = out@;
            out.push(toks);
            proof {
                let prev_kept = kept_rows(row_views.take(i as int));
                assert(kept_rows(row_views.take(i + 1 as int)) == prev_kept.push(
                    row_views[i as int],
                ));
                assert(prev_kept.push(row_views[i as int]).drop_last() =~= prev_kept);
                assert(rows_tokens(prev_kept.push(row_views[i as int])) == rows_tokens(
                    prev_kept,
                ).push(tokens_of(row_views[i as int])));
                assert(out@.map_values(|row2: Vec<&'a str>| row2@.map_values(|t: &str| t@))
                    =~= old_out.map_values(|row2: Vec<&'a str>| row2@.map_values(|t: &str| t@)).push(
                    tokens_of(row_views[i as int]),
                ));
            }
        } else {
            proof {
                assert(kept_rows(row_views.take(i + 1 as int)) == kept_rows(
                    row_views.take(i as int),
                ));
            }
        }
        i += 1;
    }
    proof {
        assert(row_views.take(nr as int) =~= row_views);
    }
    out
}

} // verus!
