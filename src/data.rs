use vstd::prelude::*;

verus! {

/// `s` without the copies of `c` at its end.
pub open spec fn trim_end(s: Seq<char>, c: char) -> Seq<char>
    decreases s.len(),
{
    if s.len() > 0 && s.last() == c {
        trim_end(s.drop_last(), c)
    } else {
        s
    }
}

/// `s` without the copies of `c` at its start.
pub open spec fn trim_start(s: Seq<char>, c: char) -> Seq<char>
    decreases s.len(),
{
    if s.len() > 0 && s[0] == c {
        trim_start(s.subrange(1, s.len() as int), c)
    } else {
        s
    }
}

pub open spec fn is_bracket(c: char) -> bool {
    c == '[' || c == ']'
}

/// `s` with every `[` and `]` removed.
pub open spec fn without_brackets(s: Seq<char>) -> Seq<char>
    decreases s.len(),
{
    if s.len() == 0 {
        s
    } else if is_bracket(s.last()) {
        without_brackets(s.drop_last())
    } else {
        without_brackets(s.drop_last()).push(s.last())
    }
}

/// The combined data document built from the JSON texts of the reference
/// bases (an array), of the alignment marks and of the variants: the
/// reference array is reopened, the alignment marks are added with all
/// their brackets removed, then the variants, whose array supplies the
/// closing bracket.
pub open spec fn spliced(fasta: Seq<char>, alignments: Seq<char>, variants: Seq<char>) -> Seq<char> {
    let f = trim_end(fasta, ']');
    let a = without_brackets(alignments);
    let v = trim_start(variants, '[');
    let v_empty = trim_end(v, ']');
    if v_empty.len() == 0 {
        f + seq![','] + a + v
    } else if a.len() == 0 {
        f + seq![','] + v
    } else {
        f + seq![','] + a + seq![','] + v
    }
}

fn copy_range(s: &Vec<char>, lo: usize, hi: usize, out: &mut Vec<char>)
    requires
        lo <= hi <= s@.len(),
    ensures
        final(out)@ == old(out)@ + s@.subrange(lo as int, hi as int),
{
    let mut i: usize = lo;
    while i < hi
        invariant
            lo <= i <= hi,
            hi <= s@.len(),
            out@ == old(out)@ + s@.subrange(lo as int, i as int),
        decreases hi - i,
    {
        out.push(s[i]);
        proof {
            assert(s@.subrange(lo as int, i + 1) =~= s@.subrange(lo as int, i as int).push(s@[i as int]));
        }
        i += 1;
    }
}

/// Length of `s.take(hi)` once the copies of `c` at its end are dropped.
fn trimmed_end(s: &Vec<char>, lo: usize, hi: usize, c: char) -> (k: usize)
    requires
        lo <= hi <= s@.len(),
    ensures
        lo <= k <= hi,
        s@.subrange(lo as int, k as int) == trim_end(s@.subrange(lo as int, hi as int), c),
{
    let mut k: usize = hi;
    while k > lo && s[k - 1] == c
        invariant
            lo <= k <= hi <= s@.len(),
            trim_end(s@.subrange(lo as int, k as int), c) == trim_end(s@.subrange(lo as int, hi as int), c),
        decreases k,
    {
        assert(s@.subrange(lo as int, k as int).drop_last() =~= s@.subrange(lo as int, k - 1));
        k -= 1;
    }
    k
}

/// Index of the first character of `s` that is not `c`.
fn trimmed_start(s: &Vec<char>, c: char) -> (k: usize)
    ensures
        k <= s@.len(),
        s@.subrange(k as int, s@.len() as int) == trim_start(s@, c),
{
    let mut k: usize = 0;
    assert(s@.subrange(0, s@.len() as int) =~= s@);
    while k < s.len() && s[k] == c
        invariant
            k <= s@.len(),
            trim_start(s@.subrange(k as int, s@.len() as int), c) == trim_start(s@, c),
        decreases s@.len() - k,
    {
        assert(s@.subrange(k as int, s@.len() as int).subrange(1, s@.len() - k) =~= s@.subrange(
            k + 1,
            s@.len() as int,
        ));
        k += 1;
    }
    k
}

/// Builds the combined data document; see `spliced`.
pub fn splice_data(fasta: &Vec<char>, alignments: &Vec<char>, variants: &Vec<char>) -> (r: Vec<char>)
    ensures
        r@ == spliced(fasta@, alignments@, variants@),
{
    let mut a: Vec<char> = Vec::new();
    let mut i: usize = 0;
    while i < alignments.len()
        invariant
            i <= alignments@.len(),
            a@ == without_brackets(alignments@.take(i as int)),
        decreases alignments@.len() - i,
    {
        let ch = alignments[i];
        assert(alignments@.take(i + 1).drop_last() =~= alignments@.take(i as int));
        if ch != '[' && ch != ']' {
            a.push(ch);
        }
        i += 1;
    }
    assert(alignments@.take(alignments@.len() as int) =~= alignments@);
    let f_end = trimmed_end(fasta, 0, fasta.len(), ']');
    assert(fasta@.subrange(0, fasta@.len() as int) =~= fasta@);
    let v_start = trimmed_start(variants, '[');
    let v_end = trimmed_end(variants, v_start, variants.len(), ']');
    let mut r: Vec<char> = Vec::new();
    copy_range(fasta, 0, f_end, &mut r);
    r.push(',');
    if v_end == v_start {
        copy_range(&a, 0, a.len(), &mut r);
        copy_range(variants, v_start, variants.len(), &mut r);
    } else if a.len() == 0 {
        copy_range(variants, v_start, variants.len(), &mut r);
    } else {
        copy_range(&a, 0, a.len(), &mut r);
        r.push(',');
        copy_range(variants, v_start, variants.len(), &mut r);
    }
    proof {
        let f = fasta@.subrange(0, f_end as int);
        let v = variants@.subrange(v_start as int, variants@.len() as int);
        assert(a@.subrange(0, a@.len() as int) =~= a@);
        assert(seq![','] =~= Seq::<char>::empty().push(','));
        if v_end == v_start {
            assert(r@ =~= f + seq![','] + a@ + v);
        } else if a@.len() == 0 {
            assert(r@ =~= f + seq![','] + v);
        } else {
            assert(r@ =~= f + seq![','] + a@ + seq![','] + v);
        }
    }
    r
}


/// Deepest nesting of arrays and objects that JSON text may reach before
/// it is parsed: the parser recurses once per level.
pub const JSON_MAX_DEPTH: u64 = 128;

/// Most digits an exponent of a JSON number may have before it is parsed:
/// the parser accumulates the exponent without an overflow check.
pub const JSON_MAX_EXPONENT_DIGITS: u64 = 9;

/// Lexical state while reading JSON text: nesting depth outside strings
/// (a closer at depth 0 keeps it at 0), whether inside a string and just
/// after a backslash there, the exponent state (0 none, 1 after `e` or
/// `E`, 2 after its sign, 3 in its digits) with the digits read so far, and
/// whether both limits have held so far. Exponents are followed in strings
/// too, which only makes the check stricter.
pub struct JsonScan {
    pub depth: int,
    pub in_string: bool,
    pub escaped: bool,
    pub exp_mode: int,
    pub exp_digits: int,
    pub ok: bool,
}

pub open spec fn is_digit(c: char) -> bool {
    '0' <= c && c <= '9'
}

/// The state after reading one more character.
pub open spec fn json_step(s: JsonScan, c: char) -> JsonScan {
    let depth = if s.in_string || c == '"' {
        s.depth
    } else if c == '[' || c == '{' {
        s.depth + 1
    } else if c == ']' || c == '}' {
        if s.depth > 0 {
            s.depth - 1
        } else {
            0
        }
    } else {
        s.depth
    };
    let in_string = if s.in_string {
        s.escaped || c != '"'
    } else {
        c == '"'
    };
    let escaped = s.in_string && !s.escaped && c == '\\';
    let exp_mode = if c == 'e' || c == 'E' {
        1
    } else if (c == '+' || c == '-') && s.exp_mode == 1 {
        2
    } else if is_digit(c) && s.exp_mode >= 1 {
        3
    } else {
        0
    };
    let exp_digits = if exp_mode == 3 {
        s.exp_digits + 1
    } else {
        0
    };
    JsonScan {
        depth,
        in_string,
        escaped,
        exp_mode,
        exp_digits,
        ok: s.ok && depth <= JSON_MAX_DEPTH && exp_digits <= JSON_MAX_EXPONENT_DIGITS,
    }
}

/// The state after the first `k` characters.
pub open spec fn json_scan(t: Seq<char>, k: nat) -> JsonScan
    decreases k,
{
    if k == 0 {
        JsonScan { depth: 0, in_string: false, escaped: false, exp_mode: 0, exp_digits: 0, ok: true }
    } else {
        json_step(json_scan(t, (k - 1) as nat), t[k - 1])
    }
}

/// The text nests at most `JSON_MAX_DEPTH` deep and no exponent has more
/// than `JSON_MAX_EXPONENT_DIGITS` digits.
pub open spec fn json_within_limits(t: Seq<char>) -> bool {
    json_scan(t, t.len()).ok
}

proof fn lemma_json_scan_fails_on(t: Seq<char>, k: nat, m: nat)
    requires
        k <= m,
        !json_scan(t, k).ok,
    ensures
        !json_scan(t, m).ok,
    decreases m,
{
    if k < m {
        lemma_json_scan_fails_on(t, k, (m - 1) as nat);
    }
}

/// Decides `json_within_limits`.
pub fn json_fits_limits(text: &Vec<char>) -> (r: bool)
    ensures
        r == json_within_limits(text@),
{
    let mut depth: u64 = 0;
    let mut in_string: bool = false;
    let mut escaped: bool = false;
    let mut exp_mode: u8 = 0;
    let mut exp_digits: u64 = 0;
    let mut i: usize = 0;
    while i < text.len()
        invariant
            i <= text@.len(),
            depth <= JSON_MAX_DEPTH,
            exp_digits <= JSON_MAX_EXPONENT_DIGITS,
            json_scan(text@, i as nat) == (JsonScan {
                depth: depth as int,
                in_string,
                escaped,
                exp_mode: exp_mode as int,
                exp_digits: exp_digits as int,
                ok: true,
            }),
        decreases text@.len() - i,
    {
        let c = text[i];
        let next_depth: u64 = if in_string || c == '"' {
            depth
        } else if c == '[' || c == '{' {
            depth + 1
        } else if c == ']' || c == '}' {
            if depth > 0 {
                depth - 1
            } else {
                0
            }
        } else {
            depth
        };
        let next_in_string = if in_string {
            escaped || c != '"'
        } else {
            c == '"'
        };
        escaped = in_string && !escaped && c == '\\';
        in_string = next_in_string;
        exp_mode = if c == 'e' || c == 'E' {
            1
        } else if (c == '+' || c == '-') && exp_mode == 1 {
            2
        } else if '0' <= c && c <= '9' && exp_mode >= 1 {
            3
        } else {
            0
        };
        exp_digits = if exp_mode == 3 {
            exp_digits + 1
        } else {
            0
        };
        depth = next_depth;
        if depth > JSON_MAX_DEPTH || exp_digits > JSON_MAX_EXPONENT_DIGITS {
            proof {
                lemma_json_scan_fails_on(text@, (i + 1) as nat, text@.len());
            }
            return false;
        }
        i += 1;
    }
    true
}

/// The text of a JSON document as parsed and printed back; none when the
/// text is not a JSON document.
pub uninterp spec fn json_normal_form(text: Seq<char>) -> Option<Seq<char>>;

/// Relies on rustc_serialize's `Json::from_str` to parse the text and on
/// its `Display` to print the parsed value back. Objects are kept in a
/// `BTreeMap`, so the printed text depends on the input text alone.
/// Parsing recurses once per nesting level and accumulates exponent digits
/// without an overflow check, so `requires` keeps both within the limits.
#[verifier::external_body]
fn normalize_json(text: &Vec<char>) -> (r: Option<Vec<char>>)
    requires
        json_within_limits(text@),
    ensures
        match r {
            Some(v) => json_normal_form(text@) == Some(v@),
            None => json_normal_form(text@) is None,
        },
{
    let s: String = text.iter().collect();
    match rustc_serialize::json::Json::from_str(&s) {
        Ok(j) => Some(j.to_string().chars().collect()),
        Err(_) => None,
    }
}

/// The combined data document: the spliced text (see `spliced`), parsed as
/// JSON and printed back; `None` when the spliced text exceeds the parsing
/// limits (see `json_within_limits`) or is not valid JSON.
pub fn data_document(fasta: &Vec<char>, alignments: &Vec<char>, variants: &Vec<char>) -> (r: Option<
    Vec<char>,
>)
    ensures
        ({
            let text = spliced(fasta@, alignments@, variants@);
            match r {
                Some(v) => json_within_limits(text) && json_normal_form(text) == Some(v@),
                None => !json_within_limits(text) || json_normal_form(text) is None,
            }
        }),
{
    let text = splice_data(fasta, alignments, variants);
    if !json_fits_limits(&text) {
        return None;
    }
    normalize_json(&text)
}

} // verus!
