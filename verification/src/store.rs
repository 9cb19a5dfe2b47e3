//! The persisted face-store format.
//!
//! The store is an ordered JSON array of objects
//! `{"time": seconds, "label": string, "id": number, "data": embedding}`
//! where the embedding is either a tagged object
//! `{"model": name, "emb": [numbers]}` or, for older files, a bare array of
//! numbers (tagged as the primary backend) or an array of arrays whose first
//! inner array is taken.
//!
//! Saving prints records in enrollment order in the tagged shape, one record
//! per line, components with six decimal places. Loading accepts all three
//! shapes, with arbitrary whitespace between tokens, decimal numbers with
//! optional fraction and exponent, and the common string escapes.
use vstd::prelude::*;
use crate::data::{FRcgMode, FaceEnc, Faces, ModelData, COMP_LIMIT, MAX_COMPONENTS};
use crate::error::Error;
use crate::text::{
    all_digits, char_from_u32, char_to_string, chars_to_string, dec_digits, digit_str, digit_val,
    digits_val, fmt_u64, is_digit, pad_digits, pow10, pow10_u128, str_to_chars,
    lemma_digits_val_dec_digits, lemma_digits_val_pad_digits, lemma_digits_val_append,
    lemma_digits_val_push, lemma_pow10_positive,
    lemma_pow10_le_38, lemma_pow10_mono,
};

verus! {

/// The mathematical content of one stored record.
pub ghost struct RecView {
    pub time: u64,
    pub label: Seq<char>,
    pub id: u64,
    pub mode: FRcgMode,
    pub comps: Seq<i64>,
}

pub open spec fn rec_view(m: ModelData) -> RecView {
    RecView {
        time: m.time,
        label: m.label@,
        id: m.id,
        mode: m.data.mode,
        comps: m.data.comps@,
    }
}

pub open spec fn views_of(s: Seq<ModelData>) -> Seq<RecView> {
    s.map_values(|m: ModelData| rec_view(m))
}

/// A record the canonical printer can write and read back: bounded
/// components, at least one component, and a label free of control
/// characters.
pub open spec fn rec_printable(r: RecView) -> bool {
    &&& 1 <= r.comps.len() <= MAX_COMPONENTS
    &&& forall|i: int| 0 <= i < r.comps.len() ==> -COMP_LIMIT <= #[trigger] r.comps[i] <= COMP_LIMIT
    &&& forall|i: int| 0 <= i < r.label.len() ==> (#[trigger] r.label[i]) as u32 >= 0x20
}

pub open spec fn store_printable(rs: Seq<RecView>) -> bool {
    forall|i: int| 0 <= i < rs.len() ==> rec_printable(#[trigger] rs[i])
}

/// How one label character is written: quotes and backslashes are escaped,
/// everything else stands as itself.
pub open spec fn esc_char(c: char) -> Seq<char> {
    if c == '"' {
        seq!['\\', '"']
    } else if c == '\\' {
        seq!['\\', '\\']
    } else {
        seq![c]
    }
}

pub open spec fn esc_string(s: Seq<char>) -> Seq<char>
    decreases s.len(),
{
    if s.len() == 0 {
        Seq::empty()
    } else {
        esc_char(s[0]) + esc_string(s.drop_first())
    }
}

pub open spec fn print_label(s: Seq<char>) -> Seq<char> {
    seq!['"'] + esc_string(s) + seq!['"']
}

pub open spec fn mode_name(m: FRcgMode) -> Seq<char> {
    match m {
        FRcgMode::Dlib => "dlib"@,
        FRcgMode::SFace => "sface"@,
    }
}

/// Canonical rendering of one fixed-point component: optional sign, integer
/// part, and exactly six fraction digits.
pub open spec fn print_num(v: i64) -> Seq<char> {
    let a: nat = if v < 0 {
        (-(v as int)) as nat
    } else {
        v as nat
    };
    let sign: Seq<char> = if v < 0 {
        seq!['-']
    } else {
        Seq::empty()
    };
    sign + dec_digits(a / 1000000) + seq!['.'] + pad_digits(a % 1000000, 6)
}

pub open spec fn print_nums(vs: Seq<i64>) -> Seq<char>
    decreases vs.len(),
{
    if vs.len() == 0 {
        Seq::empty()
    } else if vs.len() == 1 {
        print_num(vs[0])
    } else {
        print_num(vs[0]) + seq![',', ' '] + print_nums(vs.drop_first())
    }
}

pub open spec fn print_data(mode: FRcgMode, vs: Seq<i64>) -> Seq<char> {
    "{\"model\": \""@ + mode_name(mode) + "\", \"emb\": ["@ + print_nums(vs) + "]}"@
}

pub open spec fn print_rec(r: RecView) -> Seq<char> {
    "  {\"time\": "@ + dec_digits(r.time as nat) + ", \"label\": "@ + print_label(r.label)
        + ", \"id\": "@ + dec_digits(r.id as nat) + ", \"data\": "@ + print_data(r.mode, r.comps)
        + seq!['}']
}

pub open spec fn print_recs(rs: Seq<RecView>) -> Seq<char>
    decreases rs.len(),
{
    if rs.len() == 0 {
        Seq::empty()
    } else if rs.len() == 1 {
        print_rec(rs[0])
    } else {
        print_rec(rs[0]) + seq![',', '\n'] + print_recs(rs.drop_first())
    }
}

/// The whole canonical store text.
pub open spec fn print_store(rs: Seq<RecView>) -> Seq<char> {
    if rs.len() == 0 {
        "[]"@
    } else {
        "[\n"@ + print_recs(rs) + "\n]"@
    }
}

} // verus!

verus! {

/// Extending the component list appends a separator and one more number.
proof fn lemma_print_nums_push(vs: Seq<i64>, x: i64)
    ensures
        print_nums(vs.push(x)) == if vs.len() == 0 {
            print_num(x)
        } else {
            print_nums(vs) + seq![',', ' '] + print_num(x)
        },
    decreases vs.len(),
{
    if vs.len() == 0 {
        assert(vs.push(x)[0] == x);
        assert(print_nums(vs.push(x)) == print_num(x));
    } else {
        assert(vs.push(x).drop_first() =~= vs.drop_first().push(x));
        assert(vs.push(x)[0] == vs[0]);
        lemma_print_nums_push(vs.drop_first(), x);
        if vs.len() == 1 {
            assert(vs.drop_first().len() == 0);
            assert(print_nums(vs.push(x)) == print_num(vs[0]) + seq![',', ' '] + print_num(x));
        } else {
            assert(print_nums(vs.push(x)) == print_num(vs[0]) + seq![',', ' '] + (print_nums(
                vs.drop_first(),
            ) + seq![',', ' '] + print_num(x)));
            assert(print_num(vs[0]) + seq![',', ' '] + (print_nums(vs.drop_first()) + seq![
                ',',
                ' ',
            ] + print_num(x)) =~= (print_num(vs[0]) + seq![',', ' '] + print_nums(vs.drop_first()))
                + seq![',', ' '] + print_num(x));
        }
    }
}

/// Extending the record list appends a separator and one more record.
proof fn lemma_print_recs_push(rs: Seq<RecView>, x: RecView)
    ensures
        print_recs(rs.push(x)) == if rs.len() == 0 {
            print_rec(x)
        } else {
            print_recs(rs) + seq![',', '\n'] + print_rec(x)
        },
    decreases rs.len(),
{
    if rs.len() == 0 {
        assert(rs.push(x)[0] == x);
    } else {
        assert(rs.push(x).drop_first() =~= rs.drop_first().push(x));
        assert(rs.push(x)[0] == rs[0]);
        lemma_print_recs_push(rs.drop_first(), x);
        if rs.len() == 1 {
            assert(rs.drop_first().len() == 0);
        } else {
            assert(print_rec(rs[0]) + seq![',', '\n'] + (print_recs(rs.drop_first()) + seq![
                ',',
                '\n',
            ] + print_rec(x)) =~= (print_rec(rs[0]) + seq![',', '\n'] + print_recs(rs.drop_first()))
                + seq![',', '\n'] + print_rec(x));
        }
    }
}

/// Extending the label appends the escape of one more character.
proof fn lemma_esc_string_push(s: Seq<char>, c: char)
    ensures
        esc_string(s.push(c)) == esc_string(s) + esc_char(c),
    decreases s.len(),
{
    if s.len() == 0 {
        assert(s.push(c)[0] == c);
        assert(s.push(c).drop_first() =~= Seq::<char>::empty());
        assert(esc_string(Seq::<char>::empty()) =~= Seq::<char>::empty());
        assert(esc_string(s.push(c)) =~= esc_char(c));
        assert(esc_string(s) + esc_char(c) =~= esc_char(c));
    } else {
        assert(s.push(c)[0] == s[0]);
        assert(s.push(c).drop_first() =~= s.drop_first().push(c));
        lemma_esc_string_push(s.drop_first(), c);
        assert(esc_char(s[0]) + (esc_string(s.drop_first()) + esc_char(c)) =~= (esc_char(s[0])
            + esc_string(s.drop_first())) + esc_char(c));
    }
}

/// Decimal rendering of `n` zero-padded to `w` digits.
fn fmt_pad(n: u64, w: u32) -> (r: String)
    ensures
        r@ == pad_digits(n as nat, w as nat),
    decreases w,
{
    if w == 0 {
        let r = String::new();
        proof {
            assert(r@ =~= pad_digits(n as nat, 0));
        }
        r
    } else {
        let mut s = fmt_pad(n / 10, w - 1);
        let d = digit_str(n % 10);
        s.append(d.as_str());
        proof {
            assert(s@ =~= pad_digits(n as nat, w as nat));
        }
        s
    }
}

/// Canonical rendering of one fixed-point component.
fn fmt_num(v: i64) -> (r: String)
    requires
        -COMP_LIMIT <= v <= COMP_LIMIT,
    ensures
        r@ == print_num(v),
{
    proof {
        reveal_strlit("-");
        reveal_strlit(".");
        assert("-"@.len() == 1 && "-"@[0] == '-');
        assert("."@.len() == 1 && "."@[0] == '.');
    }
    let a: u64 = if v < 0 {
        (-v) as u64
    } else {
        v as u64
    };
    let mut s = if v < 0 {
        String::from_str("-")
    } else {
        String::new()
    };
    let ip = fmt_u64(a / 1000000);
    let fp = fmt_pad(a % 1000000, 6);
    s.append(ip.as_str());
    s.append(".");
    s.append(fp.as_str());
    proof {
        assert(s@ =~= print_num(v));
    }
    s
}

/// Canonical rendering of a label, quoted and escaped.
fn fmt_label(l: &str) -> (r: String)
    ensures
        r@ == print_label(l@),
{
    proof {
        reveal_strlit("\"");
        reveal_strlit("\\\"");
        reveal_strlit("\\\\");
        assert("\""@.len() == 1 && "\""@[0] == '"');
        assert("\\\""@.len() == 2 && "\\\""@[0] == '\\' && "\\\""@[1] == '"');
        assert("\\\\"@.len() == 2 && "\\\\"@[0] == '\\' && "\\\\"@[1] == '\\');
    }
    let mut s = String::from_str("\"");
    let n = l.unicode_len();
    let mut i: usize = 0;
    while i < n
        invariant
            i <= n,
            n == l@.len(),
            s@ == seq!['"'] + esc_string(l@.take(i as int)),
            "\\\""@ =~= seq!['\\', '"'],
            "\\\\"@ =~= seq!['\\', '\\'],
        decreases n - i,
    {
        let c = l.get_char(i);
        if c == '"' {
            s.append("\\\"");
        } else if c == '\\' {
            s.append("\\\\");
        } else {
            let cs = char_to_string(c);
            s.append(cs.as_str());
        }
        proof {
            lemma_esc_string_push(l@.take(i as int), c);
            assert(l@.take(i + 1) =~= l@.take(i as int).push(c));
            assert(s@ =~= seq!['"'] + esc_string(l@.take(i + 1)));
        }
        i = i + 1;
    }
    s.append("\"");
    proof {
        assert(l@.take(n as int) =~= l@);
        assert(s@ =~= print_label(l@));
    }
    s
}

/// Canonical rendering of the embedding components, comma-separated.
fn fmt_nums(vs: &Vec<i64>) -> (r: String)
    requires
        forall|i: int| 0 <= i < vs@.len() ==> -COMP_LIMIT <= #[trigger] vs@[i] <= COMP_LIMIT,
    ensures
        r@ == print_nums(vs@),
{
    proof {
        reveal_strlit(", ");
        assert(", "@.len() == 2 && ", "@[0] == ',' && ", "@[1] == ' ');
    }
    let mut s = String::new();
    let mut i: usize = 0;
    while i < vs.len()
        invariant
            i <= vs@.len(),
            forall|k: int| 0 <= k < vs@.len() ==> -COMP_LIMIT <= #[trigger] vs@[k] <= COMP_LIMIT,
            s@ == print_nums(vs@.take(i as int)),
            ", "@ =~= seq![',', ' '],
        decreases vs@.len() - i,
    {
        if i > 0 {
            s.append(", ");
        }
        let piece = fmt_num(vs[i]);
        s.append(piece.as_str());
        proof {
            lemma_print_nums_push(vs@.take(i as int), vs@[i as int]);
            assert(vs@.take(i + 1) =~= vs@.take(i as int).push(vs@[i as int]));
            if i == 0 {
                assert(s@ =~= print_nums(vs@.take(i + 1)));
            } else {
                assert(s@ =~= print_nums(vs@.take(i + 1)));
            }
        }
        i = i + 1;
    }
    proof {
        assert(vs@.take(vs@.len() as int) =~= vs@);
    }
    s
}

/// Canonical rendering of one record on its own line.
fn fmt_rec(m: &ModelData) -> (r: String)
    requires
        rec_printable(rec_view(*m)),
    ensures
        r@ == print_rec(rec_view(*m)),
{
    let mut s = String::from_str("  {\"time\": ");
    let t = fmt_u64(m.time);
    s.append(t.as_str());
    s.append(", \"label\": ");
    let l = fmt_label(m.label.as_str());
    s.append(l.as_str());
    s.append(", \"id\": ");
    let idp = fmt_u64(m.id);
    s.append(idp.as_str());
    s.append(", \"data\": ");
    s.append("{\"model\": \"");
    match m.data.mode {
        FRcgMode::Dlib => s.append("dlib"),
        FRcgMode::SFace => s.append("sface"),
    }
    s.append("\", \"emb\": [");
    let nums = fmt_nums(&m.data.comps);
    s.append(nums.as_str());
    s.append("]}");
    s.append("}");
    proof {
        reveal_strlit("}");
        assert("}"@.len() == 1 && "}"@[0] == '}');
        assert("}"@ =~= seq!['}']);
        assert(s@ =~= print_rec(rec_view(*m)));
    }
    s
}

impl Faces {
    /// Records as the canonical printer needs them: bounded non-empty
    /// embeddings and labels free of control characters.
    pub open spec fn printable(&self) -> bool {
        store_printable(views_of(self.list@))
    }

    /// Render the whole database as the canonical store text.
    pub fn to_json(&self) -> (r: String)
        requires
            self.printable(),
        ensures
            r@ == print_store(views_of(self.list@)),
    {
        proof {
            reveal_strlit("[]");
            reveal_strlit("[\n");
            reveal_strlit("\n]");
            reveal_strlit(",\n");
            assert("[]"@.len() == 2);
            assert("[\n"@.len() == 2 && "[\n"@[0] == '[' && "[\n"@[1] == '\n');
            assert("\n]"@.len() == 2 && "\n]"@[0] == '\n' && "\n]"@[1] == ']');
            assert(",\n"@.len() == 2 && ",\n"@[0] == ',' && ",\n"@[1] == '\n');
        }
        if self.list.len() == 0 {
            return String::from_str("[]");
        }
        let mut s = String::from_str("[\n");
        let mut i: usize = 0;
        while i < self.list.len()
            invariant
                i <= self.list@.len(),
                self.printable(),
                s@ == "[\n"@ + print_recs(views_of(self.list@).take(i as int)),
                ",\n"@ =~= seq![',', '\n'],
            decreases self.list@.len() - i,
        {
            if i > 0 {
                s.append(",\n");
            }
            proof {
                assert(views_of(self.list@)[i as int] == rec_view(self.list@[i as int]));
                assert(rec_printable(views_of(self.list@)[i as int]));
            }
            let piece = fmt_rec(&self.list[i]);
            s.append(piece.as_str());
            proof {
                lemma_print_recs_push(
                    views_of(self.list@).take(i as int),
                    views_of(self.list@)[i as int],
                );
                assert(views_of(self.list@).take(i + 1) =~= views_of(self.list@).take(
                    i as int,
                ).push(views_of(self.list@)[i as int]));
                assert(s@ =~= "[\n"@ + print_recs(views_of(self.list@).take(i + 1)));
            }
            i = i + 1;
        }
        s.append("\n]");
        proof {
            assert(views_of(self.list@).take(self.list@.len() as int) =~= views_of(self.list@));
            assert(views_of(self.list@).len() == self.list@.len());
            assert(s@ =~= print_store(views_of(self.list@)));
        }
        s
    }
}

} // verus!

verus! {

/// JSON whitespace.
pub open spec fn is_ws(c: char) -> bool {
    c == ' ' || c == '\n' || c == '\t' || c == '\r'
}

/// First position at or after `i` holding a non-whitespace character.
pub open spec fn skip_ws(s: Seq<char>, i: int) -> int
    decreases s.len() - i,
{
    if 0 <= i < s.len() && is_ws(s[i]) {
        skip_ws(s, i + 1)
    } else {
        i
    }
}

pub proof fn lemma_skip_ws_bounds(s: Seq<char>, i: int)
    requires
        0 <= i <= s.len(),
    ensures
        i <= skip_ws(s, i) <= s.len(),
    decreases s.len() - i,
{
    if i < s.len() && is_ws(s[i]) {
        lemma_skip_ws_bounds(s, i + 1);
    }
}

/// End of the run of decimal digits starting at `i`.
pub open spec fn digit_run_end(s: Seq<char>, i: int) -> int
    decreases s.len() - i,
{
    if 0 <= i < s.len() && is_digit(s[i]) {
        digit_run_end(s, i + 1)
    } else {
        i
    }
}

pub proof fn lemma_digit_run_bounds(s: Seq<char>, i: int)
    requires
        0 <= i <= s.len(),
    ensures
        i <= digit_run_end(s, i) <= s.len(),
        all_digits(s.subrange(i, digit_run_end(s, i))),
    decreases s.len() - i,
{
    if i < s.len() && is_digit(s[i]) {
        lemma_digit_run_bounds(s, i + 1);
        let e = digit_run_end(s, i);
        assert forall|k: int| 0 <= k < e - i implies is_digit(
            #[trigger] s.subrange(i, e)[k],
        ) by {
            if k == 0 {
                assert(s.subrange(i, e)[0] == s[i]);
            } else {
                assert(s.subrange(i, e)[k] == s.subrange(i + 1, e)[k - 1]);
                assert(is_digit(s.subrange(i + 1, e)[k - 1]));
            }
        }
    } else {
        assert(s.subrange(i, i) =~= Seq::<char>::empty());
    }
}

/// Largest mantissa the number parser accepts.
pub open spec fn mantissa_cap() -> nat {
    1000000000000000000000000000000nat
}

/// Largest exponent magnitude the number parser accepts.
pub open spec fn exp_cap() -> nat {
    1000nat
}

/// Value of a parsed number from its pieces: sign, integer digits, fraction
/// digits and exponent, truncated toward zero to fixed-point millionths;
/// `None` when the mantissa, exponent or resulting magnitude is out of
/// range.
pub open spec fn combine_num(neg: bool, ints: Seq<char>, fracs: Seq<char>, e: int) -> Option<i64> {
    let m = digits_val(ints + fracs);
    if m > mantissa_cap() {
        None
    } else {
        let shift = e - fracs.len() + 6;
        if m == 0 {
            Some(0)
        } else if shift > 12 {
            None
        } else if shift >= 0 {
            let v = m * pow10(shift as nat);
            if v > COMP_LIMIT as nat {
                None
            } else if neg {
                Some((-(v as int)) as i64)
            } else {
                Some(v as i64)
            }
        } else if shift < -38 {
            Some(0)
        } else {
            let v = m / pow10((-shift) as nat);
            if v > COMP_LIMIT as nat {
                None
            } else if neg {
                Some((-(v as int)) as i64)
            } else {
                Some(v as i64)
            }
        }
    }
}

/// The exponent suffix and final value of a number whose sign and digit
/// parts have been read up to position `i`.
pub open spec fn sp_exp_part(s: Seq<char>, i: int, neg: bool, ints: Seq<char>, fracs: Seq<char>)
    -> Option<(i64, int)> {
    if 0 <= i < s.len() && (s[i] == 'e' || s[i] == 'E') {
        let eneg = i + 1 < s.len() && s[i + 1] == '-';
        let epos = i + 1 < s.len() && s[i + 1] == '+';
        let j0 = if eneg || epos {
            i + 2
        } else {
            i + 1
        };
        let j1 = digit_run_end(s, j0);
        if j1 == j0 {
            None
        } else {
            let ev = digits_val(s.subrange(j0, j1));
            if ev > exp_cap() {
                None
            } else {
                let e: int = if eneg {
                    -(ev as int)
                } else {
                    ev as int
                };
                match combine_num(neg, ints, fracs, e) {
                    Some(v) => Some((v, j1)),
                    None => None,
                }
            }
        }
    } else {
        match combine_num(neg, ints, fracs, 0) {
            Some(v) => Some((v, i)),
            None => None,
        }
    }
}

/// A JSON number at `i`, as a fixed-point component value.
pub open spec fn sp_parse_number(s: Seq<char>, i: int) -> Option<(i64, int)> {
    if !(0 <= i <= s.len()) {
        None
    } else {
        let neg = i < s.len() && s[i] == '-';
        let j0 = if neg {
            i + 1
        } else {
            i
        };
        let j1 = digit_run_end(s, j0);
        if j1 == j0 {
            None
        } else {
            let ints = s.subrange(j0, j1);
            if j1 < s.len() && s[j1] == '.' {
                let j2 = digit_run_end(s, j1 + 1);
                if j2 == j1 + 1 {
                    None
                } else {
                    sp_exp_part(s, j2, neg, ints, s.subrange(j1 + 1, j2))
                }
            } else {
                sp_exp_part(s, j1, neg, ints, Seq::empty())
            }
        }
    }
}

pub proof fn lemma_exp_part_advances(
    s: Seq<char>,
    i: int,
    neg: bool,
    ints: Seq<char>,
    fracs: Seq<char>,
)
    requires
        0 <= i <= s.len(),
    ensures
        match sp_exp_part(s, i, neg, ints, fracs) {
            Some(r) => i <= r.1 <= s.len(),
            None => true,
        },
{
    if 0 <= i < s.len() && (s[i] == 'e' || s[i] == 'E') {
        let eneg = i + 1 < s.len() && s[i + 1] == '-';
        let epos = i + 1 < s.len() && s[i + 1] == '+';
        let j0 = if eneg || epos {
            i + 2
        } else {
            i + 1
        };
        if j0 <= s.len() {
            lemma_digit_run_bounds(s, j0);
        }
    }
}

pub proof fn lemma_number_advances(s: Seq<char>, i: int)
    ensures
        match sp_parse_number(s, i) {
            Some(r) => i < r.1 <= s.len(),
            None => true,
        },
{
    if 0 <= i <= s.len() {
        let neg = i < s.len() && s[i] == '-';
        let j0 = if neg {
            i + 1
        } else {
            i
        };
        if j0 <= s.len() {
            lemma_digit_run_bounds(s, j0);
            let j1 = digit_run_end(s, j0);
            if j1 != j0 {
                if j1 < s.len() && s[j1] == '.' {
                    lemma_digit_run_bounds(s, j1 + 1);
                    let j2 = digit_run_end(s, j1 + 1);
                    if j2 != j1 + 1 {
                        lemma_exp_part_advances(s, j2, neg, s.subrange(j0, j1), s.subrange(j1 + 1, j2));
                    }
                } else {
                    lemma_exp_part_advances(s, j1, neg, s.subrange(j0, j1), Seq::empty());
                }
            }
        }
    }
}

/// A JSON integer at `i` that fits in a `u64`.
pub open spec fn sp_parse_u64(s: Seq<char>, i: int) -> Option<(u64, int)> {
    if !(0 <= i <= s.len()) {
        None
    } else {
        let j = digit_run_end(s, i);
        if j == i {
            None
        } else {
            let v = digits_val(s.subrange(i, j));
            if v > u64::MAX {
                None
            } else {
                Some((v as u64, j))
            }
        }
    }
}

pub proof fn lemma_u64_advances(s: Seq<char>, i: int)
    ensures
        match sp_parse_u64(s, i) {
            Some(r) => i < r.1 <= s.len(),
            None => true,
        },
{
    if 0 <= i <= s.len() {
        lemma_digit_run_bounds(s, i);
    }
}

/// Unescaped form of a single-character escape.
pub open spec fn unesc_char(c: char) -> Option<char> {
    if c == '"' {
        Some('"')
    } else if c == '\\' {
        Some('\\')
    } else if c == '/' {
        Some('/')
    } else if c == 'n' {
        Some('\n')
    } else if c == 't' {
        Some('\t')
    } else if c == 'r' {
        Some('\r')
    } else if c == 'b' {
        Some('\u{8}')
    } else if c == 'f' {
        Some('\u{c}')
    } else {
        None
    }
}

pub open spec fn is_hex(c: char) -> bool {
    is_digit(c) || (97 <= c as u32 <= 102) || (65 <= c as u32 <= 70)
}

pub open spec fn hex_val(c: char) -> nat {
    if is_digit(c) {
        digit_val(c)
    } else if 97 <= c as u32 <= 102 {
        (c as u32 - 87) as nat
    } else {
        (c as u32 - 55) as nat
    }
}

/// Code point that is a Unicode scalar value.
pub open spec fn is_uni_scalar(v: nat) -> bool {
    v < 0xD800 || (0xE000 <= v < 0x110000)
}

/// The body of a JSON string starting inside the quotes at `i`: the decoded
/// characters and the position just past the closing quote.
pub open spec fn sp_string_body(s: Seq<char>, i: int) -> Option<(Seq<char>, int)>
    decreases s.len() - i,
{
    if !(0 <= i < s.len()) {
        None
    } else if s[i] == '"' {
        Some((Seq::empty(), i + 1))
    } else if s[i] == '\\' {
        if i + 1 >= s.len() {
            None
        } else if s[i + 1] == 'u' {
            if i + 6 <= s.len() && is_hex(s[i + 2]) && is_hex(s[i + 3]) && is_hex(s[i + 4])
                && is_hex(s[i + 5]) {
                let v = ((hex_val(s[i + 2]) * 4096) + (hex_val(s[i + 3]) * 256) + (hex_val(
                    s[i + 4],
                ) * 16) + hex_val(s[i + 5])) as nat;
                if is_uni_scalar(v) {
                    match sp_string_body(s, i + 6) {
                        Some(r) => Some((seq![(v as u32) as char] + r.0, r.1)),
                        None => None,
                    }
                } else {
                    None
                }
            } else {
                None
            }
        } else {
            match unesc_char(s[i + 1]) {
                Some(u) => match sp_string_body(s, i + 2) {
                    Some(r) => Some((seq![u] + r.0, r.1)),
                    None => None,
                },
                None => None,
            }
        }
    } else if (s[i] as u32) < 0x20 {
        None
    } else {
        match sp_string_body(s, i + 1) {
            Some(r) => Some((seq![s[i]] + r.0, r.1)),
            None => None,
        }
    }
}

pub proof fn lemma_string_body_advances(s: Seq<char>, i: int)
    ensures
        match sp_string_body(s, i) {
            Some(r) => i < r.1 <= s.len(),
            None => true,
        },
    decreases s.len() - i,
{
    if 0 <= i < s.len() {
        if s[i] == '"' {
        } else if s[i] == '\\' {
            if i + 1 < s.len() {
                if s[i + 1] == 'u' {
                    if i + 6 <= s.len() {
                        lemma_string_body_advances(s, i + 6);
                    }
                } else {
                    lemma_string_body_advances(s, i + 2);
                }
            }
        } else {
            lemma_string_body_advances(s, i + 1);
        }
    }
}

} // verus!

verus! {

/// The literal `lit` occurs in `s` at position `i`.
pub open spec fn match_lit(s: Seq<char>, i: int, lit: Seq<char>) -> bool {
    0 <= i && i + lit.len() <= s.len() && s.subrange(i, i + lit.len()) == lit
}

/// Positions after the first number of an array: a comma-separated tail of
/// numbers up to and including the closing bracket.
pub open spec fn sp_nums_rest(s: Seq<char>, i: int) -> Option<(Seq<i64>, int)>
    decreases s.len() - i,
    via sp_nums_rest_dec
{
    if !(0 <= i <= s.len()) {
        None
    } else {
        let j = skip_ws(s, i);
        if j < s.len() && s[j] == ']' {
            Some((Seq::empty(), j + 1))
        } else if j < s.len() && s[j] == ',' {
            let k = skip_ws(s, j + 1);
            match sp_parse_number(s, k) {
                Some(r) => match sp_nums_rest(s, r.1) {
                    Some(q) => Some((seq![r.0] + q.0, q.1)),
                    None => None,
                },
                None => None,
            }
        } else {
            None
        }
    }
}

#[via_fn]
proof fn sp_nums_rest_dec(s: Seq<char>, i: int) {
    if 0 <= i <= s.len() {
        lemma_skip_ws_bounds(s, i);
        let j = skip_ws(s, i);
        if j < s.len() {
            lemma_skip_ws_bounds(s, j + 1);
            lemma_number_advances(s, skip_ws(s, j + 1));
        }
    }
}

pub proof fn lemma_nums_rest_advances(s: Seq<char>, i: int)
    ensures
        match sp_nums_rest(s, i) {
            Some(r) => i < r.1 <= s.len(),
            None => true,
        },
    decreases s.len() - i,
{
    if 0 <= i <= s.len() {
        lemma_skip_ws_bounds(s, i);
        let j = skip_ws(s, i);
        if j < s.len() && s[j] == ']' {
        } else if j < s.len() && s[j] == ',' {
            lemma_skip_ws_bounds(s, j + 1);
            let k = skip_ws(s, j + 1);
            lemma_number_advances(s, k);
            match sp_parse_number(s, k) {
                Some(r) => {
                    lemma_nums_rest_advances(s, r.1);
                },
                None => {},
            }
        }
    }
}

/// A whole array of numbers starting at its opening bracket.
pub open spec fn sp_parse_nums_array(s: Seq<char>, i: int) -> Option<(Seq<i64>, int)> {
    if !(0 <= i < s.len() && s[i] == '[') {
        None
    } else {
        let j = skip_ws(s, i + 1);
        if j < s.len() && s[j] == ']' {
            Some((Seq::empty(), j + 1))
        } else {
            match sp_parse_number(s, j) {
                Some(r) => match sp_nums_rest(s, r.1) {
                    Some(q) => Some((seq![r.0] + q.0, q.1)),
                    None => None,
                },
                None => None,
            }
        }
    }
}

pub proof fn lemma_nums_array_advances(s: Seq<char>, i: int)
    ensures
        match sp_parse_nums_array(s, i) {
            Some(r) => i < r.1 <= s.len(),
            None => true,
        },
{
    if 0 <= i < s.len() && s[i] == '[' {
        lemma_skip_ws_bounds(s, i + 1);
        let j = skip_ws(s, i + 1);
        lemma_number_advances(s, j);
        match sp_parse_number(s, j) {
            Some(r) => {
                lemma_nums_rest_advances(s, r.1);
            },
            None => {},
        }
    }
}

/// Positions after the first inner array of a nested data array: the
/// remaining inner arrays are read and discarded up to and including the
/// outer closing bracket.
pub open spec fn sp_arrs_rest(s: Seq<char>, i: int) -> Option<int>
    decreases s.len() - i,
    via sp_arrs_rest_dec
{
    if !(0 <= i <= s.len()) {
        None
    } else {
        let j = skip_ws(s, i);
        if j < s.len() && s[j] == ']' {
            Some(j + 1)
        } else if j < s.len() && s[j] == ',' {
            let k = skip_ws(s, j + 1);
            match sp_parse_nums_array(s, k) {
                Some(r) => sp_arrs_rest(s, r.1),
                None => None,
            }
        } else {
            None
        }
    }
}

#[via_fn]
proof fn sp_arrs_rest_dec(s: Seq<char>, i: int) {
    if 0 <= i <= s.len() {
        lemma_skip_ws_bounds(s, i);
        let j = skip_ws(s, i);
        if j < s.len() {
            lemma_skip_ws_bounds(s, j + 1);
            lemma_nums_array_advances(s, skip_ws(s, j + 1));
        }
    }
}

pub proof fn lemma_arrs_rest_advances(s: Seq<char>, i: int)
    ensures
        match sp_arrs_rest(s, i) {
            Some(e) => i < e <= s.len(),
            None => true,
        },
    decreases s.len() - i,
{
    if 0 <= i <= s.len() {
        lemma_skip_ws_bounds(s, i);
        let j = skip_ws(s, i);
        if j < s.len() && s[j] == ']' {
        } else if j < s.len() && s[j] == ',' {
            lemma_skip_ws_bounds(s, j + 1);
            let k = skip_ws(s, j + 1);
            lemma_nums_array_advances(s, k);
            match sp_parse_nums_array(s, k) {
                Some(r) => {
                    lemma_arrs_rest_advances(s, r.1);
                },
                None => {},
            }
        }
    }
}

/// The embedding of a record, in any accepted shape, with its backend tag.
pub open spec fn sp_parse_data(s: Seq<char>, i: int) -> Option<((FRcgMode, Seq<i64>), int)> {
    if !(0 <= i < s.len()) {
        None
    } else if s[i] == '{' {
        let j1 = skip_ws(s, i + 1);
        if !match_lit(s, j1, "\"model\""@) {
            None
        } else {
            let j2 = skip_ws(s, j1 + 7);
            if !(j2 < s.len() && s[j2] == ':') {
                None
            } else {
                let j3 = skip_ws(s, j2 + 1);
                if !(j3 < s.len() && s[j3] == '"') {
                    None
                } else {
                    match sp_string_body(s, j3 + 1) {
                        None => None,
                        Some(nm) => {
                            if nm.0 == "dlib"@ || nm.0 == "sface"@ {
                                let mode = if nm.0 == "dlib"@ {
                                    FRcgMode::Dlib
                                } else {
                                    FRcgMode::SFace
                                };
                                let j5 = skip_ws(s, nm.1);
                                if !(j5 < s.len() && s[j5] == ',') {
                                    None
                                } else {
                                    let j6 = skip_ws(s, j5 + 1);
                                    if !match_lit(s, j6, "\"emb\""@) {
                                        None
                                    } else {
                                        let j7 = skip_ws(s, j6 + 5);
                                        if !(j7 < s.len() && s[j7] == ':') {
                                            None
                                        } else {
                                            let j8 = skip_ws(s, j7 + 1);
                                            match sp_parse_nums_array(s, j8) {
                                                None => None,
                                                Some(ns) => {
                                                    let j9 = skip_ws(s, ns.1);
                                                    if j9 < s.len() && s[j9] == '}' {
                                                        Some(((mode, ns.0), j9 + 1))
                                                    } else {
                                                        None
                                                    }
                                                },
                                            }
                                        }
                                    }
                                }
                            } else {
                                None
                            }
                        },
                    }
                }
            }
        }
    } else if s[i] == '[' {
        let j = skip_ws(s, i + 1);
        if j < s.len() && s[j] == '[' {
            match sp_parse_nums_array(s, j) {
                None => None,
                Some(inner) => match sp_arrs_rest(s, inner.1) {
                    None => None,
                    Some(e) => Some(((FRcgMode::Dlib, inner.0), e)),
                },
            }
        } else if j < s.len() && s[j] == ']' {
            Some(((FRcgMode::Dlib, Seq::empty()), j + 1))
        } else {
            match sp_parse_number(s, j) {
                None => None,
                Some(r) => match sp_nums_rest(s, r.1) {
                    None => None,
                    Some(q) => Some(((FRcgMode::Dlib, seq![r.0] + q.0), q.1)),
                },
            }
        }
    } else {
        None
    }
}

pub proof fn lemma_data_advances(s: Seq<char>, i: int)
    ensures
        match sp_parse_data(s, i) {
            Some(r) => i < r.1 <= s.len(),
            None => true,
        },
{
    if 0 <= i < s.len() {
        if s[i] == '{' {
            lemma_skip_ws_bounds(s, i + 1);
            let j1 = skip_ws(s, i + 1);
            if match_lit(s, j1, "\"model\""@) {
                proof_strlit_model();
                lemma_skip_ws_bounds(s, j1 + 7);
                let j2 = skip_ws(s, j1 + 7);
                if j2 < s.len() && s[j2] == ':' {
                    lemma_skip_ws_bounds(s, j2 + 1);
                    let j3 = skip_ws(s, j2 + 1);
                    if j3 < s.len() && s[j3] == '"' {
                        lemma_string_body_advances(s, j3 + 1);
                        match sp_string_body(s, j3 + 1) {
                            None => {},
                            Some(nm) => {
                                lemma_skip_ws_bounds(s, nm.1);
                                let j5 = skip_ws(s, nm.1);
                                if j5 < s.len() && s[j5] == ',' {
                                    lemma_skip_ws_bounds(s, j5 + 1);
                                    let j6 = skip_ws(s, j5 + 1);
                                    if match_lit(s, j6, "\"emb\""@) {
                                        proof_strlit_emb();
                                        lemma_skip_ws_bounds(s, j6 + 5);
                                        let j7 = skip_ws(s, j6 + 5);
                                        if j7 < s.len() && s[j7] == ':' {
                                            lemma_skip_ws_bounds(s, j7 + 1);
                                            let j8 = skip_ws(s, j7 + 1);
                                            lemma_nums_array_advances(s, j8);
                                            match sp_parse_nums_array(s, j8) {
                                                None => {},
                                                Some(ns) => {
                                                    lemma_skip_ws_bounds(s, ns.1);
                                                },
                                            }
                                        }
                                    }
                                }
                            },
                        }
                    }
                }
            }
        } else if s[i] == '[' {
            lemma_skip_ws_bounds(s, i + 1);
            let j = skip_ws(s, i + 1);
            if j < s.len() && s[j] == '[' {
                lemma_nums_array_advances(s, j);
                match sp_parse_nums_array(s, j) {
                    None => {},
                    Some(inner) => {
                        lemma_arrs_rest_advances(s, inner.1);
                    },
                }
            } else if j < s.len() && s[j] == ']' {
            } else {
                lemma_number_advances(s, j);
                match sp_parse_number(s, j) {
                    None => {},
                    Some(r) => {
                        lemma_nums_rest_advances(s, r.1);
                    },
                }
            }
        }
    }
}

/// The lengths of the key literals, available to the advancement proofs.
proof fn proof_strlit_model()
    ensures
        "\"model\""@.len() == 7,
{
    reveal_strlit("\"model\"");
}

proof fn proof_strlit_emb()
    ensures
        "\"emb\""@.len() == 5,
{
    reveal_strlit("\"emb\"");
}

} // verus!

verus! {

proof fn proof_strlit_keys()
    ensures
        "\"time\""@.len() == 6,
        "\"label\""@.len() == 7,
        "\"id\""@.len() == 4,
        "\"data\""@.len() == 6,
{
    reveal_strlit("\"time\"");
    reveal_strlit("\"label\"");
    reveal_strlit("\"id\"");
    reveal_strlit("\"data\"");
}

/// One record object, with its four keys in their canonical order.
pub open spec fn sp_parse_record(s: Seq<char>, i: int) -> Option<(RecView, int)> {
    if !(0 <= i < s.len() && s[i] == '{') {
        None
    } else {
        let j1 = skip_ws(s, i + 1);
        if !match_lit(s, j1, "\"time\""@) {
            None
        } else {
            let j2 = skip_ws(s, j1 + 6);
            if !(j2 < s.len() && s[j2] == ':') {
                None
            } else {
                match sp_parse_u64(s, skip_ws(s, j2 + 1)) {
                    None => None,
                    Some(tv) => {
                        let j4 = skip_ws(s, tv.1);
                        if !(j4 < s.len() && s[j4] == ',') {
                            None
                        } else {
                            let j5 = skip_ws(s, j4 + 1);
                            if !match_lit(s, j5, "\"label\""@) {
                                None
                            } else {
                                let j6 = skip_ws(s, j5 + 7);
                                if !(j6 < s.len() && s[j6] == ':') {
                                    None
                                } else {
                                    let j7 = skip_ws(s, j6 + 1);
                                    if !(j7 < s.len() && s[j7] == '"') {
                                        None
                                    } else {
                                        sp_record_after_label(s, i, j7, tv.0)
                                    }
                                }
                            }
                        }
                    },
                }
            }
        }
    }
}

/// The rest of a record from the label's opening quote at `j7`.
pub open spec fn sp_record_after_label(s: Seq<char>, i: int, j7: int, time: u64) -> Option<
    (RecView, int),
> {
    match sp_string_body(s, j7 + 1) {
        None => None,
        Some(lab) => {
            let j8 = skip_ws(s, lab.1);
            if !(j8 < s.len() && s[j8] == ',') {
                None
            } else {
                let j9 = skip_ws(s, j8 + 1);
                if !match_lit(s, j9, "\"id\""@) {
                    None
                } else {
                    let j10 = skip_ws(s, j9 + 4);
                    if !(j10 < s.len() && s[j10] == ':') {
                        None
                    } else {
                        match sp_parse_u64(s, skip_ws(s, j10 + 1)) {
                            None => None,
                            Some(iv) => {
                                let j12 = skip_ws(s, iv.1);
                                if !(j12 < s.len() && s[j12] == ',') {
                                    None
                                } else {
                                    let j13 = skip_ws(s, j12 + 1);
                                    if !match_lit(s, j13, "\"data\""@) {
                                        None
                                    } else {
                                        let j14 = skip_ws(s, j13 + 6);
                                        if !(j14 < s.len() && s[j14] == ':') {
                                            None
                                        } else {
                                            match sp_parse_data(s, skip_ws(s, j14 + 1)) {
                                                None => None,
                                                Some(dv) => {
                                                    if !(1 <= dv.0.1.len()
                                                        <= MAX_COMPONENTS as int) {
                                                        None
                                                    } else {
                                                        let j16 = skip_ws(s, dv.1);
                                                        if !(j16 < s.len() && s[j16] == '}') {
                                                            None
                                                        } else {
                                                            Some(
                                                                (
                                                                    RecView {
                                                                        time,
                                                                        label: lab.0,
                                                                        id: iv.0,
                                                                        mode: dv.0.0,
                                                                        comps: dv.0.1,
                                                                    },
                                                                    j16 + 1,
                                                                ),
                                                            )
                                                        }
                                                    }
                                                },
                                            }
                                        }
                                    }
                                }
                            },
                        }
                    }
                }
            }
        },
    }
}

pub proof fn lemma_record_advances(s: Seq<char>, i: int)
    ensures
        match sp_parse_record(s, i) {
            Some(r) => i < r.1 <= s.len(),
            None => true,
        },
{
    proof_strlit_keys();
    if 0 <= i < s.len() && s[i] == '{' {
        lemma_skip_ws_bounds(s, i + 1);
        let j1 = skip_ws(s, i + 1);
        if match_lit(s, j1, "\"time\""@) {
            lemma_skip_ws_bounds(s, j1 + 6);
            let j2 = skip_ws(s, j1 + 6);
            if j2 < s.len() && s[j2] == ':' {
                lemma_skip_ws_bounds(s, j2 + 1);
                lemma_u64_advances(s, skip_ws(s, j2 + 1));
                match sp_parse_u64(s, skip_ws(s, j2 + 1)) {
                    None => {},
                    Some(tv) => {
                        lemma_skip_ws_bounds(s, tv.1);
                        let j4 = skip_ws(s, tv.1);
                        if j4 < s.len() && s[j4] == ',' {
                            lemma_skip_ws_bounds(s, j4 + 1);
                            let j5 = skip_ws(s, j4 + 1);
                            if match_lit(s, j5, "\"label\""@) {
                                lemma_skip_ws_bounds(s, j5 + 7);
                                let j6 = skip_ws(s, j5 + 7);
                                if j6 < s.len() && s[j6] == ':' {
                                    lemma_skip_ws_bounds(s, j6 + 1);
                                    let j7 = skip_ws(s, j6 + 1);
                                    if j7 < s.len() && s[j7] == '"' {
                                        lemma_record_after_label_advances(s, i, j7, tv.0);
                                    }
                                }
                            }
                        }
                    },
                }
            }
        }
    }
}

proof fn lemma_record_after_label_advances(s: Seq<char>, i: int, j7: int, time: u64)
    requires
        0 <= j7 < s.len(),
    ensures
        match sp_record_after_label(s, i, j7, time) {
            Some(r) => j7 < r.1 <= s.len(),
            None => true,
        },
{
    proof_strlit_keys();
    lemma_string_body_advances(s, j7 + 1);
    match sp_string_body(s, j7 + 1) {
        None => {},
        Some(lab) => {
            lemma_skip_ws_bounds(s, lab.1);
            let j8 = skip_ws(s, lab.1);
            if j8 < s.len() && s[j8] == ',' {
                lemma_skip_ws_bounds(s, j8 + 1);
                let j9 = skip_ws(s, j8 + 1);
                if match_lit(s, j9, "\"id\""@) {
                    lemma_skip_ws_bounds(s, j9 + 4);
                    let j10 = skip_ws(s, j9 + 4);
                    if j10 < s.len() && s[j10] == ':' {
                        lemma_skip_ws_bounds(s, j10 + 1);
                        lemma_u64_advances(s, skip_ws(s, j10 + 1));
                        match sp_parse_u64(s, skip_ws(s, j10 + 1)) {
                            None => {},
                            Some(iv) => {
                                lemma_skip_ws_bounds(s, iv.1);
                                let j12 = skip_ws(s, iv.1);
                                if j12 < s.len() && s[j12] == ',' {
                                    lemma_skip_ws_bounds(s, j12 + 1);
                                    let j13 = skip_ws(s, j12 + 1);
                                    if match_lit(s, j13, "\"data\""@) {
                                        lemma_skip_ws_bounds(s, j13 + 6);
                                        let j14 = skip_ws(s, j13 + 6);
                                        if j14 < s.len() && s[j14] == ':' {
                                            lemma_skip_ws_bounds(s, j14 + 1);
                                            lemma_data_advances(s, skip_ws(s, j14 + 1));
                                            match sp_parse_data(s, skip_ws(s, j14 + 1)) {
                                                None => {},
                                                Some(dv) => {
                                                    lemma_skip_ws_bounds(s, dv.1);
                                                },
                                            }
                                        }
                                    }
                                }
                            },
                        }
                    }
                }
            }
        },
    }
}

/// Positions after one record: a comma-separated tail of records up to and
/// including the closing bracket of the store array.
pub open spec fn sp_recs_rest(s: Seq<char>, i: int) -> Option<(Seq<RecView>, int)>
    decreases s.len() - i,
    via sp_recs_rest_dec
{
    if !(0 <= i <= s.len()) {
        None
    } else {
        let j = skip_ws(s, i);
        if j < s.len() && s[j] == ']' {
            Some((Seq::empty(), j + 1))
        } else if j < s.len() && s[j] == ',' {
            let k = skip_ws(s, j + 1);
            match sp_parse_record(s, k) {
                Some(r) => match sp_recs_rest(s, r.1) {
                    Some(q) => Some((seq![r.0] + q.0, q.1)),
                    None => None,
                },
                None => None,
            }
        } else {
            None
        }
    }
}

#[via_fn]
proof fn sp_recs_rest_dec(s: Seq<char>, i: int) {
    if 0 <= i <= s.len() {
        lemma_skip_ws_bounds(s, i);
        let j = skip_ws(s, i);
        if j < s.len() {
            lemma_skip_ws_bounds(s, j + 1);
            lemma_record_advances(s, skip_ws(s, j + 1));
        }
    }
}

pub proof fn lemma_recs_rest_advances(s: Seq<char>, i: int)
    ensures
        match sp_recs_rest(s, i) {
            Some(r) => i < r.1 <= s.len(),
            None => true,
        },
    decreases s.len() - i,
{
    if 0 <= i <= s.len() {
        lemma_skip_ws_bounds(s, i);
        let j = skip_ws(s, i);
        if j < s.len() && s[j] == ']' {
        } else if j < s.len() && s[j] == ',' {
            lemma_skip_ws_bounds(s, j + 1);
            let k = skip_ws(s, j + 1);
            lemma_record_advances(s, k);
            match sp_parse_record(s, k) {
                Some(r) => {
                    lemma_recs_rest_advances(s, r.1);
                },
                None => {},
            }
        }
    }
}

/// The whole store text: an array of records with nothing but whitespace
/// around it.
pub open spec fn sp_parse_store(s: Seq<char>) -> Option<Seq<RecView>> {
    let i = skip_ws(s, 0);
    if !(i < s.len() && s[i] == '[') {
        None
    } else {
        let j = skip_ws(s, i + 1);
        if j < s.len() && s[j] == ']' {
            if skip_ws(s, j + 1) == s.len() {
                Some(Seq::empty())
            } else {
                None
            }
        } else {
            match sp_parse_record(s, j) {
                None => None,
                Some(r) => match sp_recs_rest(s, r.1) {
                    None => None,
                    Some(q) => {
                        if skip_ws(s, q.1) == s.len() {
                            Some(seq![r.0] + q.0)
                        } else {
                            None
                        }
                    },
                },
            }
        }
    }
}

} // verus!

verus! {

/// First non-whitespace position at or after `i`.
fn ex_skip_ws(s: &Vec<char>, i: usize) -> (r: usize)
    requires
        i <= s@.len(),
    ensures
        r == skip_ws(s@, i as int),
        i <= r <= s@.len(),
    decreases s@.len() - i,
{
    if i < s.len() {
        let c = s[i];
        if c == ' ' || c == '\n' || c == '\t' || c == '\r' {
            return ex_skip_ws(s, i + 1);
        }
    }
    i
}

fn ex_is_digit(c: char) -> (r: bool)
    ensures
        r == is_digit(c),
{
    let v = c as u32;
    48 <= v && v <= 57
}

/// End of the digit run starting at `i`.
fn ex_digit_run(s: &Vec<char>, i: usize) -> (r: usize)
    requires
        i <= s@.len(),
    ensures
        r == digit_run_end(s@, i as int),
        i <= r <= s@.len(),
    decreases s@.len() - i,
{
    if i < s.len() {
        if ex_is_digit(s[i]) {
            return ex_digit_run(s, i + 1);
        }
    }
    i
}

/// Accumulate the value of the digits in `s[a..b]` onto an earlier digit
/// prefix `d0`, detecting when the combined value exceeds `cap`.
#[allow(unused_variables)]
fn ex_run_value_cont(
    s: &Vec<char>,
    a: usize,
    b: usize,
    acc0: u128,
    over0: bool,
    Ghost(d0): Ghost<Seq<char>>,
    cap: u128,
) -> (r: (bool, u128))
    requires
        a <= b <= s@.len(),
        all_digits(s@.subrange(a as int, b as int)),
        cap <= 1000000000000000000000000000000000000,
        !over0 ==> acc0 == digits_val(d0) && acc0 <= cap,
        over0 ==> digits_val(d0) > cap,
    ensures
        !r.0 ==> r.1 == digits_val(d0 + s@.subrange(a as int, b as int)) && r.1 <= cap,
        r.0 ==> digits_val(d0 + s@.subrange(a as int, b as int)) > cap,
{
    let mut acc = acc0;
    let mut over = over0;
    let mut k = a;
    proof {
        assert(s@.subrange(a as int, a as int) =~= Seq::<char>::empty());
        assert(d0 + s@.subrange(a as int, a as int) =~= d0);
    }
    while k < b
        invariant
            a <= k <= b <= s@.len(),
            all_digits(s@.subrange(a as int, b as int)),
            cap <= 1000000000000000000000000000000000000,
            !over ==> acc == digits_val(d0 + s@.subrange(a as int, k as int)) && acc <= cap,
            over ==> digits_val(d0 + s@.subrange(a as int, k as int)) > cap,
        decreases b - k,
    {
        let c = s[k];
        proof {
            assert(s@.subrange(a as int, b as int)[k - a] == s@[k as int]);
            assert(is_digit(c));
            assert((d0 + s@.subrange(a as int, k + 1)) =~= (d0 + s@.subrange(a as int, k as int)).push(c));
            lemma_digits_val_push(d0 + s@.subrange(a as int, k as int), c);
        }
        let d: u128 = (c as u32 - 48) as u128;
        proof {
            assert(d == digit_val(c));
        }
        if !over {
            let nv = acc * 10 + d;
            if nv > cap {
                over = true;
                proof {
                    assert(digits_val(d0 + s@.subrange(a as int, k + 1)) == acc * 10 + d);
                }
            } else {
                acc = nv;
            }
        } else {
            proof {
                let pv = digits_val(d0 + s@.subrange(a as int, k as int));
                assert(pv * 10 + digit_val(c) >= pv) by (nonlinear_arith)
                    requires
                        pv >= 0,
                ;
            }
        }
        k = k + 1;
    }
    (over, acc)
}

/// A JSON integer at `i` fitting in a `u64`.
fn ex_parse_u64(s: &Vec<char>, i: usize) -> (r: Option<(u64, usize)>)
    requires
        i <= s@.len(),
    ensures
        match r {
            Some(p) => sp_parse_u64(s@, i as int) == Some((p.0, p.1 as int)) && i < p.1 <= s@.len(),
            None => sp_parse_u64(s@, i as int) is None,
        },
{
    let j = ex_digit_run(s, i);
    if j == i {
        return None;
    }
    proof {
        lemma_digit_run_bounds(s@, i as int);
    }
    let (over, v) = ex_run_value_cont(
        s,
        i,
        j,
        0,
        false,
        Ghost(Seq::<char>::empty()),
        u64::MAX as u128,
    );
    proof {
        assert(Seq::<char>::empty() + s@.subrange(i as int, j as int) =~= s@.subrange(
            i as int,
            j as int,
        ));
        assert(digits_val(Seq::<char>::empty()) == 0);
    }
    if over {
        return None;
    }
    Some((v as u64, j))
}

/// Largest mantissa the number parser accepts, as a machine value.
pub const MANTISSA_CAP_U128: u128 = 1000000000000000000000000000000;

/// Final value of a number from its sign, digit spans and exponent.
fn ex_combine(
    s: &Vec<char>,
    neg: bool,
    i0: usize,
    i1: usize,
    f0: usize,
    f1: usize,
    e: i64,
    endpos: usize,
) -> (r: Option<(i64, usize)>)
    requires
        i0 <= i1 <= s@.len(),
        f0 <= f1 <= s@.len(),
        all_digits(s@.subrange(i0 as int, i1 as int)),
        all_digits(s@.subrange(f0 as int, f1 as int)),
        -1000 <= e <= 1000,
        endpos <= s@.len(),
    ensures
        match r {
            Some(p) => combine_num(
                neg,
                s@.subrange(i0 as int, i1 as int),
                s@.subrange(f0 as int, f1 as int),
                e as int,
            ) == Some(p.0) && p.1 == endpos,
            None => combine_num(
                neg,
                s@.subrange(i0 as int, i1 as int),
                s@.subrange(f0 as int, f1 as int),
                e as int,
            ) is None,
        },
{
    let ghost ints = s@.subrange(i0 as int, i1 as int);
    let ghost fracs = s@.subrange(f0 as int, f1 as int);
    let (over_a, acc_a) = ex_run_value_cont(
        s,
        i0,
        i1,
        0,
        false,
        Ghost(Seq::<char>::empty()),
        MANTISSA_CAP_U128,
    );
    proof {
        assert(Seq::<char>::empty() + ints =~= ints);
        assert(digits_val(Seq::<char>::empty()) == 0);
        assert(mantissa_cap() == MANTISSA_CAP_U128 as nat);
    }
    let (over, m) = ex_run_value_cont(s, f0, f1, acc_a, over_a, Ghost(ints), MANTISSA_CAP_U128);
    proof {
        assert(ints + fracs == ints + s@.subrange(f0 as int, f1 as int));
    }
    if over {
        return None;
    }
    // shift = e - |fracs| + 6, computed wide enough for any fraction length
    let fl: i128 = (f1 - f0) as i128;
    let shift: i128 = e as i128 - fl + 6;
    if m == 0 {
        return Some((0, endpos));
    }
    if shift > 12 {
        return None;
    }
    if shift >= 0 {
        if m > COMP_LIMIT as u128 {
            proof {
                lemma_pow10_positive(shift as nat);
                assert(m as nat * pow10(shift as nat) >= m as nat * 1) by (nonlinear_arith)
                    requires
                        pow10(shift as nat) >= 1,
                        m as nat >= 0,
                ;
            }
            return None;
        }
        let p = pow10_u128(shift as u32);
        proof {
            lemma_pow10_mono(shift as nat, 12);
            reveal_with_fuel(pow10, 14);
            assert(pow10(12) == 1000000000000nat);
            assert(m * p <= 1000000000000u128 * 1000000000000u128) by (nonlinear_arith)
                requires
                    m <= 1000000000000u128,
                    p <= 1000000000000u128,
            ;
        }
        let v = m * p;
        if v > COMP_LIMIT as u128 {
            return None;
        }
        let vi = v as i64;
        if neg {
            return Some(((-vi), endpos));
        }
        return Some((vi, endpos));
    }
    if shift < -38 {
        return Some((0, endpos));
    }
    let p = pow10_u128((-shift) as u32);
    proof {
        lemma_pow10_positive((-shift) as nat);
        assert(m as nat / pow10((-shift) as nat) <= m as nat) by (nonlinear_arith)
            requires
                pow10((-shift) as nat) >= 1,
                m as nat >= 0,
        ;
    }
    let v = m / p;
    if v > COMP_LIMIT as u128 {
        return None;
    }
    let vi = v as i64;
    if neg {
        return Some(((-vi), endpos));
    }
    Some((vi, endpos))
}

/// The exponent suffix and final value of a number whose digit spans have
/// been read.
fn ex_exp_part(s: &Vec<char>, i: usize, neg: bool, i0: usize, i1: usize, f0: usize, f1: usize) -> (r:
    Option<(i64, usize)>)
    requires
        i <= s@.len(),
        i0 <= i1 <= s@.len(),
        f0 <= f1 <= s@.len(),
        all_digits(s@.subrange(i0 as int, i1 as int)),
        all_digits(s@.subrange(f0 as int, f1 as int)),
    ensures
        match r {
            Some(p) => sp_exp_part(
                s@,
                i as int,
                neg,
                s@.subrange(i0 as int, i1 as int),
                s@.subrange(f0 as int, f1 as int),
            ) == Some((p.0, p.1 as int)) && p.1 <= s@.len(),
            None => sp_exp_part(
                s@,
                i as int,
                neg,
                s@.subrange(i0 as int, i1 as int),
                s@.subrange(f0 as int, f1 as int),
            ) is None,
        },
{
    let n = s.len();
    if i < n && (s[i] == 'e' || s[i] == 'E') {
        let eneg = i + 1 < n && s[i + 1] == '-';
        let epos = i + 1 < n && s[i + 1] == '+';
        let j0 = if eneg || epos {
            i + 2
        } else {
            i + 1
        };
        let j1 = ex_digit_run(s, j0);
        if j1 == j0 {
            return None;
        }
        proof {
            lemma_digit_run_bounds(s@, j0 as int);
        }
        let (over, ev) = ex_run_value_cont(s, j0, j1, 0, false, Ghost(Seq::<char>::empty()), 1000);
        proof {
            assert(Seq::<char>::empty() + s@.subrange(j0 as int, j1 as int) =~= s@.subrange(
                j0 as int,
                j1 as int,
            ));
            assert(digits_val(Seq::<char>::empty()) == 0);
            assert(exp_cap() == 1000nat);
        }
        if over {
            return None;
        }
        let e: i64 = if eneg {
            -(ev as i64)
        } else {
            ev as i64
        };
        ex_combine(s, neg, i0, i1, f0, f1, e, j1)
    } else {
        ex_combine(s, neg, i0, i1, f0, f1, 0, i)
    }
}

/// A JSON number at `i`, as a fixed-point component value.
fn ex_parse_number(s: &Vec<char>, i: usize) -> (r: Option<(i64, usize)>)
    requires
        i <= s@.len(),
    ensures
        match r {
            Some(p) => sp_parse_number(s@, i as int) == Some((p.0, p.1 as int)) && i < p.1
                <= s@.len(),
            None => sp_parse_number(s@, i as int) is None,
        },
{
    let n = s.len();
    let neg = i < n && s[i] == '-';
    let j0 = if neg {
        i + 1
    } else {
        i
    };
    let j1 = ex_digit_run(s, j0);
    if j1 == j0 {
        return None;
    }
    proof {
        lemma_digit_run_bounds(s@, j0 as int);
        lemma_number_advances(s@, i as int);
    }
    if j1 < n {
        if s[j1] == '.' {
            let j2 = ex_digit_run(s, j1 + 1);
            if j2 == j1 + 1 {
                return None;
            }
            proof {
                lemma_digit_run_bounds(s@, j1 + 1);
            }
            return ex_exp_part(s, j2, neg, j0, j1, j1 + 1, j2);
        }
    }
    proof {
        assert(s@.subrange(j1 as int, j1 as int) =~= Seq::<char>::empty());
    }
    ex_exp_part(s, j1, neg, j0, j1, j1, j1)
}

} // verus!

verus! {

fn ex_is_hex(c: char) -> (r: bool)
    ensures
        r == is_hex(c),
{
    let v = c as u32;
    (48 <= v && v <= 57) || (97 <= v && v <= 102) || (65 <= v && v <= 70)
}

fn ex_hex_val(c: char) -> (r: u32)
    requires
        is_hex(c),
    ensures
        r == hex_val(c),
        r <= 15,
{
    let v = c as u32;
    if 48 <= v && v <= 57 {
        v - 48
    } else if 97 <= v {
        v - 87
    } else {
        v - 55
    }
}

fn ex_unesc(c: char) -> (r: Option<char>)
    ensures
        r == unesc_char(c),
{
    if c == '"' {
        Some('"')
    } else if c == '\\' {
        Some('\\')
    } else if c == '/' {
        Some('/')
    } else if c == 'n' {
        Some('\n')
    } else if c == 't' {
        Some('\t')
    } else if c == 'r' {
        Some('\r')
    } else if c == 'b' {
        Some('\u{8}')
    } else if c == 'f' {
        Some('\u{c}')
    } else {
        None
    }
}

/// The body of a JSON string from inside the quotes, decoded.
fn ex_string_body(s: &Vec<char>, i: usize) -> (r: Option<(Vec<char>, usize)>)
    requires
        i <= s@.len(),
    ensures
        match r {
            Some(p) => sp_string_body(s@, i as int) == Some((p.0@, p.1 as int)) && p.1 <= s@.len(),
            None => sp_string_body(s@, i as int) is None,
        },
{
    let mut acc: Vec<char> = Vec::new();
    let mut p: usize = i;
    proof {
        lemma_string_body_advances(s@, i as int);
        match sp_string_body(s@, i as int) {
            Some(t) => {
                assert(Seq::<char>::empty() + t.0 =~= t.0);
            },
            None => {},
        }
    }
    loop
        invariant
            i <= p <= s@.len(),
            match sp_string_body(s@, p as int) {
                Some(t) => sp_string_body(s@, i as int) == Some((acc@ + t.0, t.1)) && t.1
                    <= s@.len(),
                None => sp_string_body(s@, i as int) is None,
            },
        decreases s@.len() - p,
    {
        proof {
            lemma_string_body_advances(s@, p as int);
        }
        if p >= s.len() {
            return None;
        }
        let c = s[p];
        if c == '"' {
            proof {
                assert(acc@ + Seq::<char>::empty() =~= acc@);
            }
            return Some((acc, p + 1));
        } else if c == '\\' {
            if p + 1 >= s.len() {
                return None;
            }
            let c2 = s[p + 1];
            if c2 == 'u' {
                if s.len() - p < 6 {
                    return None;
                }
                let h2 = s[p + 2];
                let h3 = s[p + 3];
                let h4 = s[p + 4];
                let h5 = s[p + 5];
                if !(ex_is_hex(h2) && ex_is_hex(h3) && ex_is_hex(h4) && ex_is_hex(h5)) {
                    return None;
                }
                let v: u32 = ex_hex_val(h2) * 4096 + ex_hex_val(h3) * 256 + ex_hex_val(h4) * 16
                    + ex_hex_val(h5);
                if !(v < 0xD800 || (0xE000 <= v && v < 0x110000)) {
                    return None;
                }
                match char_from_u32(v) {
                    Some(ch) => {
                        proof {
                            match sp_string_body(s@, p + 6) {
                                Some(t) => {
                                    assert(acc@ + (seq![ch] + t.0) =~= acc@.push(ch) + t.0);
                                },
                                None => {},
                            }
                        }
                        acc.push(ch);
                        p = p + 6;
                    },
                    None => {
                        return None;
                    },
                }
            } else {
                match ex_unesc(c2) {
                    Some(u) => {
                        proof {
                            match sp_string_body(s@, p + 2) {
                                Some(t) => {
                                    assert(acc@ + (seq![u] + t.0) =~= acc@.push(u) + t.0);
                                },
                                None => {},
                            }
                        }
                        acc.push(u);
                        p = p + 2;
                    },
                    None => {
                        return None;
                    },
                }
            }
        } else if (c as u32) < 0x20 {
            return None;
        } else {
            proof {
                match sp_string_body(s@, p + 1) {
                    Some(t) => {
                        assert(acc@ + (seq![c] + t.0) =~= acc@.push(c) + t.0);
                    },
                    None => {},
                }
            }
            acc.push(c);
            p = p + 1;
        }
    }
}

/// A whole array of numbers starting at its opening bracket.
fn ex_parse_nums_array(s: &Vec<char>, i: usize) -> (r: Option<(Vec<i64>, usize)>)
    requires
        i <= s@.len(),
    ensures
        match r {
            Some(p) => sp_parse_nums_array(s@, i as int) == Some((p.0@, p.1 as int)) && p.1
                <= s@.len(),
            None => sp_parse_nums_array(s@, i as int) is None,
        },
{
    if !(i < s.len() && s[i] == '[') {
        return None;
    }
    let j = ex_skip_ws(s, i + 1);
    if j < s.len() && s[j] == ']' {
        let empty: Vec<i64> = Vec::new();
        proof {
            assert(empty@ =~= Seq::<i64>::empty());
        }
        return Some((empty, j + 1));
    }
    match ex_parse_number(s, j) {
        None => None,
        Some((v, m)) => {
            let mut acc: Vec<i64> = Vec::new();
            acc.push(v);
            let mut p = m;
            proof {
                assert(acc@ =~= seq![v]);
                lemma_nums_rest_advances(s@, m as int);
                match sp_nums_rest(s@, m as int) {
                    Some(q) => {
                        assert(seq![v] + q.0 =~= acc@ + q.0);
                    },
                    None => {},
                }
            }
            loop
                invariant
                    p <= s@.len(),
                    match sp_nums_rest(s@, p as int) {
                        Some(q) => sp_parse_nums_array(s@, i as int) == Some((acc@ + q.0, q.1))
                            && q.1 <= s@.len(),
                        None => sp_parse_nums_array(s@, i as int) is None,
                    },
                decreases s@.len() - p,
            {
                proof {
                    lemma_nums_rest_advances(s@, p as int);
                }
                let j2 = ex_skip_ws(s, p);
                if j2 < s.len() && s[j2] == ']' {
                    proof {
                        assert(acc@ + Seq::<i64>::empty() =~= acc@);
                    }
                    return Some((acc, j2 + 1));
                }
                if !(j2 < s.len() && s[j2] == ',') {
                    return None;
                }
                let k = ex_skip_ws(s, j2 + 1);
                match ex_parse_number(s, k) {
                    None => {
                        return None;
                    },
                    Some((v2, m2)) => {
                        proof {
                            match sp_nums_rest(s@, m2 as int) {
                                Some(q2) => {
                                    assert(acc@ + (seq![v2] + q2.0) =~= acc@.push(v2) + q2.0);
                                },
                                None => {},
                            }
                        }
                        acc.push(v2);
                        p = m2;
                    },
                }
            }
        },
    }
}

/// Consume and discard the remaining inner arrays of a nested data array.
fn ex_arrs_rest(s: &Vec<char>, i: usize) -> (r: Option<usize>)
    requires
        i <= s@.len(),
    ensures
        match r {
            Some(e) => sp_arrs_rest(s@, i as int) == Some(e as int) && e <= s@.len(),
            None => sp_arrs_rest(s@, i as int) is None,
        },
{
    let mut p = i;
    loop
        invariant
            p <= s@.len(),
            sp_arrs_rest(s@, i as int) == sp_arrs_rest(s@, p as int),
        decreases s@.len() - p,
    {
        proof {
            lemma_arrs_rest_advances(s@, p as int);
        }
        let j = ex_skip_ws(s, p);
        if j < s.len() && s[j] == ']' {
            return Some(j + 1);
        }
        if !(j < s.len() && s[j] == ',') {
            return None;
        }
        let k = ex_skip_ws(s, j + 1);
        match ex_parse_nums_array(s, k) {
            None => {
                return None;
            },
            Some((_, m)) => {
                proof {
                    lemma_nums_array_advances(s@, k as int);
                }
                p = m;
            },
        }
    }
}

} // verus!

verus! {

/// The literal occurs in the character vector at position `j`.
fn ex_match_lit(s: &Vec<char>, j: usize, lit: &str) -> (r: bool)
    requires
        j <= s@.len(),
    ensures
        r == match_lit(s@, j as int, lit@),
{
    let n = lit.unicode_len();
    if s.len() - j < n {
        return false;
    }
    let mut k: usize = 0;
    let slen = s.len();
    while k < n
        invariant
            k <= n,
            n == lit@.len(),
            j + n <= s@.len(),
            slen == s@.len(),
            forall|t: int| 0 <= t < k ==> s@[j + t] == lit@[t],
        decreases n - k,
    {
        if s[j + k] != lit.get_char(k) {
            proof {
                assert(s@.subrange(j as int, j + n)[k as int] == s@[j + k]);
            }
            return false;
        }
        k = k + 1;
    }
    proof {
        assert(s@.subrange(j as int, j + n) =~= lit@);
    }
    true
}

/// The decoded characters equal the literal.
fn ex_chars_eq_lit(v: &Vec<char>, lit: &str) -> (r: bool)
    ensures
        r == (v@ == lit@),
{
    let n = lit.unicode_len();
    if v.len() != n {
        return false;
    }
    let mut k: usize = 0;
    while k < n
        invariant
            k <= n,
            n == lit@.len(),
            n == v@.len(),
            forall|t: int| 0 <= t < k ==> v@[t] == lit@[t],
        decreases n - k,
    {
        if v[k] != lit.get_char(k) {
            return false;
        }
        k = k + 1;
    }
    proof {
        assert(v@ =~= lit@);
    }
    true
}

/// The embedding of a record, in any accepted shape, with its backend tag.
fn ex_parse_data(s: &Vec<char>, i: usize) -> (r: Option<((FRcgMode, Vec<i64>), usize)>)
    requires
        i <= s@.len(),
    ensures
        match r {
            Some(p) => sp_parse_data(s@, i as int) == Some((((p.0).0, (p.0).1@), p.1 as int))
                && p.1 <= s@.len(),
            None => sp_parse_data(s@, i as int) is None,
        },
{
    proof {
        proof_strlit_model();
        proof_strlit_emb();
    }
    if !(i < s.len()) {
        return None;
    }
    let c = s[i];
    if c == '{' {
        let j1 = ex_skip_ws(s, i + 1);
        if !ex_match_lit(s, j1, "\"model\"") {
            return None;
        }
        let j2 = ex_skip_ws(s, j1 + 7);
        if !(j2 < s.len() && s[j2] == ':') {
            return None;
        }
        let j3 = ex_skip_ws(s, j2 + 1);
        if !(j3 < s.len() && s[j3] == '"') {
            return None;
        }
        match ex_string_body(s, j3 + 1) {
            None => None,
            Some((nm, j4)) => {
                let is_dlib = ex_chars_eq_lit(&nm, "dlib");
                let is_sface = ex_chars_eq_lit(&nm, "sface");
                if !(is_dlib || is_sface) {
                    return None;
                }
                let mode = if is_dlib {
                    FRcgMode::Dlib
                } else {
                    FRcgMode::SFace
                };
                let j5 = ex_skip_ws(s, j4);
                if !(j5 < s.len() && s[j5] == ',') {
                    return None;
                }
                let j6 = ex_skip_ws(s, j5 + 1);
                if !ex_match_lit(s, j6, "\"emb\"") {
                    return None;
                }
                let j7 = ex_skip_ws(s, j6 + 5);
                if !(j7 < s.len() && s[j7] == ':') {
                    return None;
                }
                let j8 = ex_skip_ws(s, j7 + 1);
                match ex_parse_nums_array(s, j8) {
                    None => None,
                    Some((ns, m)) => {
                        let j9 = ex_skip_ws(s, m);
                        if j9 < s.len() && s[j9] == '}' {
                            Some(((mode, ns), j9 + 1))
                        } else {
                            None
                        }
                    },
                }
            },
        }
    } else if c == '[' {
        let j = ex_skip_ws(s, i + 1);
        if j < s.len() && s[j] == '[' {
            match ex_parse_nums_array(s, j) {
                None => None,
                Some((inner, m)) => {
                    match ex_arrs_rest(s, m) {
                        None => None,
                        Some(e) => Some(((FRcgMode::Dlib, inner), e)),
                    }
                },
            }
        } else if j < s.len() && s[j] == ']' {
            let empty: Vec<i64> = Vec::new();
            proof {
                assert(empty@ =~= Seq::<i64>::empty());
            }
            Some(((FRcgMode::Dlib, empty), j + 1))
        } else {
            match ex_parse_nums_array(s, i) {
                None => None,
                Some((ns, m)) => Some(((FRcgMode::Dlib, ns), m)),
            }
        }
    } else {
        None
    }
}

/// One record object with its keys in canonical order.
fn ex_parse_record(s: &Vec<char>, i: usize) -> (r: Option<(ModelData, usize)>)
    requires
        i <= s@.len(),
    ensures
        match r {
            Some(p) => sp_parse_record(s@, i as int) matches Some(q) && q.0 == rec_view(p.0)
                && q.1 == p.1 as int && p.1 <= s@.len() && p.0.wf(),
            None => sp_parse_record(s@, i as int) is None,
        },
{
    proof {
        proof_strlit_keys();
    }
    if !(i < s.len() && s[i] == '{') {
        return None;
    }
    let j1 = ex_skip_ws(s, i + 1);
    if !ex_match_lit(s, j1, "\"time\"") {
        return None;
    }
    let j2 = ex_skip_ws(s, j1 + 6);
    if !(j2 < s.len() && s[j2] == ':') {
        return None;
    }
    let j3 = ex_skip_ws(s, j2 + 1);
    match ex_parse_u64(s, j3) {
        None => None,
        Some((time, t1)) => {
            let j4 = ex_skip_ws(s, t1);
            if !(j4 < s.len() && s[j4] == ',') {
                return None;
            }
            let j5 = ex_skip_ws(s, j4 + 1);
            if !ex_match_lit(s, j5, "\"label\"") {
                return None;
            }
            let j6 = ex_skip_ws(s, j5 + 7);
            if !(j6 < s.len() && s[j6] == ':') {
                return None;
            }
            let j7 = ex_skip_ws(s, j6 + 1);
            if !(j7 < s.len() && s[j7] == '"') {
                return None;
            }
            ex_record_after_label(s, i, j7, time)
        },
    }
}

/// The rest of a record from the label's opening quote.
fn ex_record_after_label(s: &Vec<char>, i: usize, j7: usize, time: u64) -> (r: Option<
    (ModelData, usize),
>)
    requires
        j7 < s@.len(),
    ensures
        match r {
            Some(p) => sp_record_after_label(s@, i as int, j7 as int, time) matches Some(q) && q.0
                == rec_view(p.0) && q.1 == p.1 as int && p.1 <= s@.len() && p.0.wf(),
            None => sp_record_after_label(s@, i as int, j7 as int, time) is None,
        },
{
    proof {
        proof_strlit_keys();
    }
    let n = s.len();
    proof {
        assert(j7 < n);
    }
    match ex_string_body(s, j7 + 1) {
        None => None,
        Some((lab, l1)) => {
            let j8 = ex_skip_ws(s, l1);
            if !(j8 < s.len() && s[j8] == ',') {
                return None;
            }
            let j9 = ex_skip_ws(s, j8 + 1);
            if !ex_match_lit(s, j9, "\"id\"") {
                return None;
            }
            let j10 = ex_skip_ws(s, j9 + 4);
            if !(j10 < s.len() && s[j10] == ':') {
                return None;
            }
            let j11 = ex_skip_ws(s, j10 + 1);
            match ex_parse_u64(s, j11) {
                None => None,
                Some((id, i1)) => {
                    let j12 = ex_skip_ws(s, i1);
                    if !(j12 < s.len() && s[j12] == ',') {
                        return None;
                    }
                    let j13 = ex_skip_ws(s, j12 + 1);
                    if !ex_match_lit(s, j13, "\"data\"") {
                        return None;
                    }
                    let j14 = ex_skip_ws(s, j13 + 6);
                    if !(j14 < s.len() && s[j14] == ':') {
                        return None;
                    }
                    let j15 = ex_skip_ws(s, j14 + 1);
                    match ex_parse_data(s, j15) {
                        None => None,
                        Some(((mode, comps), d1)) => {
                            if comps.len() == 0 || comps.len() > MAX_COMPONENTS {
                                return None;
                            }
                            let j16 = ex_skip_ws(s, d1);
                            if !(j16 < s.len() && s[j16] == '}') {
                                return None;
                            }
                            proof {
                                lemma_data_values_bounded(s@, j15 as int);
                            }
                            let label = chars_to_string(&lab);
                            let rec = ModelData {
                                time,
                                label,
                                id,
                                data: FaceEnc { mode, comps },
                            };
                            Some((rec, j16 + 1))
                        },
                    }
                },
            }
        },
    }
}

} // verus!

verus! {

/// Any value the number parser yields is a bounded component.
pub proof fn lemma_combine_bounded(neg: bool, ints: Seq<char>, fracs: Seq<char>, e: int)
    ensures
        match combine_num(neg, ints, fracs, e) {
            Some(v) => -COMP_LIMIT <= v <= COMP_LIMIT,
            None => true,
        },
{
    let m = digits_val(ints + fracs);
    if m <= mantissa_cap() {
        let shift = e - fracs.len() + 6;
        if m == 0 {
        } else if shift > 12 {
        } else if shift >= 0 {
            let v = m * pow10(shift as nat);
            if v <= COMP_LIMIT as nat {
                lemma_component_fits(v);
            }
        } else if shift < -38 {
        } else {
            let v = m / pow10((-shift) as nat);
            if v <= COMP_LIMIT as nat {
                lemma_component_fits(v);
            }
        }
    }
}

/// A bounded non-negative component value survives the casts to `i64`.
proof fn lemma_component_fits(v: nat)
    requires
        v <= 1000000000000nat,
    ensures
        v as i64 == v as int,
        (-(v as int)) as i64 == -(v as int),
        0 <= v as int <= 1000000000000,
{
}

pub proof fn lemma_number_bounded(s: Seq<char>, i: int)
    ensures
        match sp_parse_number(s, i) {
            Some(r) => -COMP_LIMIT <= r.0 <= COMP_LIMIT,
            None => true,
        },
{
    if 0 <= i <= s.len() {
        let neg = i < s.len() && s[i] == '-';
        let j0 = if neg {
            i + 1
        } else {
            i
        };
        let j1 = digit_run_end(s, j0);
        if j1 != j0 {
            let ints = s.subrange(j0, j1);
            if j1 < s.len() && s[j1] == '.' {
                let j2 = digit_run_end(s, j1 + 1);
                if j2 != j1 + 1 {
                    lemma_exp_part_bounded(s, j2, neg, ints, s.subrange(j1 + 1, j2));
                }
            } else {
                lemma_exp_part_bounded(s, j1, neg, ints, Seq::empty());
            }
        }
    }
}

pub proof fn lemma_exp_part_bounded(
    s: Seq<char>,
    i: int,
    neg: bool,
    ints: Seq<char>,
    fracs: Seq<char>,
)
    ensures
        match sp_exp_part(s, i, neg, ints, fracs) {
            Some(r) => -COMP_LIMIT <= r.0 <= COMP_LIMIT,
            None => true,
        },
{
    if 0 <= i < s.len() && (s[i] == 'e' || s[i] == 'E') {
        let eneg = i + 1 < s.len() && s[i + 1] == '-';
        let epos = i + 1 < s.len() && s[i + 1] == '+';
        let j0 = if eneg || epos {
            i + 2
        } else {
            i + 1
        };
        let j1 = digit_run_end(s, j0);
        if j1 != j0 {
            let ev = digits_val(s.subrange(j0, j1));
            if ev <= exp_cap() {
                let e: int = if eneg {
                    -(ev as int)
                } else {
                    ev as int
                };
                lemma_combine_bounded(neg, ints, fracs, e);
            }
        }
    } else {
        lemma_combine_bounded(neg, ints, fracs, 0);
    }
}

pub proof fn lemma_nums_rest_bounded(s: Seq<char>, i: int)
    ensures
        match sp_nums_rest(s, i) {
            Some(r) => forall|k: int| 0 <= k < r.0.len() ==> -COMP_LIMIT <= #[trigger] r.0[k] <= COMP_LIMIT,
            None => true,
        },
    decreases s.len() - i,
{
    if 0 <= i <= s.len() {
        lemma_skip_ws_bounds(s, i);
        let j = skip_ws(s, i);
        if j < s.len() && s[j] == ']' {
        } else if j < s.len() && s[j] == ',' {
            lemma_skip_ws_bounds(s, j + 1);
            let k = skip_ws(s, j + 1);
            lemma_number_advances(s, k);
            lemma_number_bounded(s, k);
            match sp_parse_number(s, k) {
                Some(r) => {
                    lemma_nums_rest_bounded(s, r.1);
                },
                None => {},
            }
        }
    }
}

pub proof fn lemma_nums_array_bounded(s: Seq<char>, i: int)
    ensures
        match sp_parse_nums_array(s, i) {
            Some(r) => forall|k: int| 0 <= k < r.0.len() ==> -COMP_LIMIT <= #[trigger] r.0[k] <= COMP_LIMIT,
            None => true,
        },
{
    if 0 <= i < s.len() && s[i] == '[' {
        lemma_skip_ws_bounds(s, i + 1);
        let j = skip_ws(s, i + 1);
        lemma_number_bounded(s, j);
        lemma_number_advances(s, j);
        match sp_parse_number(s, j) {
            Some(r) => {
                lemma_nums_rest_bounded(s, r.1);
            },
            None => {},
        }
    }
}

/// Any embedding the data parser yields has bounded components.
pub proof fn lemma_data_values_bounded(s: Seq<char>, i: int)
    ensures
        match sp_parse_data(s, i) {
            Some(d) => forall|k: int|
                0 <= k < d.0.1.len() ==> -COMP_LIMIT <= #[trigger] d.0.1[k] <= COMP_LIMIT,
            None => true,
        },
{
    if 0 <= i < s.len() {
        if s[i] == '{' {
            let j1 = skip_ws(s, i + 1);
            if match_lit(s, j1, "\"model\""@) {
                proof_strlit_model();
                let j2 = skip_ws(s, j1 + 7);
                if j2 < s.len() && s[j2] == ':' {
                    let j3 = skip_ws(s, j2 + 1);
                    if j3 < s.len() && s[j3] == '"' {
                        match sp_string_body(s, j3 + 1) {
                            None => {},
                            Some(nm) => {
                                let j5 = skip_ws(s, nm.1);
                                if j5 < s.len() && s[j5] == ',' {
                                    let j6 = skip_ws(s, j5 + 1);
                                    if match_lit(s, j6, "\"emb\""@) {
                                        proof_strlit_emb();
                                        let j7 = skip_ws(s, j6 + 5);
                                        if j7 < s.len() && s[j7] == ':' {
                                            lemma_nums_array_bounded(s, skip_ws(s, j7 + 1));
                                        }
                                    }
                                }
                            },
                        }
                    }
                }
            }
        } else if s[i] == '[' {
            let j = skip_ws(s, i + 1);
            if j < s.len() && s[j] == '[' {
                lemma_nums_array_bounded(s, j);
            } else if j < s.len() && s[j] == ']' {
            } else {
                lemma_number_bounded(s, j);
                lemma_number_advances(s, j);
                match sp_parse_number(s, j) {
                    Some(r) => {
                        lemma_nums_rest_bounded(s, r.1);
                        match sp_nums_rest(s, r.1) {
                            Some(q) => {
                                assert forall|k: int| 0 <= k < (seq![r.0] + q.0).len() implies
                                    -COMP_LIMIT <= #[trigger] (seq![r.0] + q.0)[k]
                                        <= COMP_LIMIT by {
                                    if k > 0 {
                                        assert((seq![r.0] + q.0)[k] == q.0[k - 1]);
                                    }
                                }
                            },
                            None => {},
                        }
                    },
                    None => {},
                }
            }
        }
    }
}

/// The whole store text as a list of records.
#[verifier::rlimit(100)]
fn ex_parse_store(s: &Vec<char>) -> (r: Option<Vec<ModelData>>)
    ensures
        match r {
            Some(v) => sp_parse_store(s@) matches Some(q) && q == views_of(v@) && (forall|k: int|
                0 <= k < v@.len() ==> (#[trigger] v@[k]).wf()),
            None => sp_parse_store(s@) is None,
        },
{
    let i0 = ex_skip_ws(s, 0);
    if !(i0 < s.len() && s[i0] == '[') {
        return None;
    }
    let j = ex_skip_ws(s, i0 + 1);
    if j < s.len() && s[j] == ']' {
        let e = ex_skip_ws(s, j + 1);
        if e == s.len() {
            let empty: Vec<ModelData> = Vec::new();
            proof {
                assert(views_of(empty@) =~= Seq::<RecView>::empty());
            }
            return Some(empty);
        }
        return None;
    }
    match ex_parse_record(s, j) {
        None => None,
        Some((rec, m)) => {
            let mut acc: Vec<ModelData> = Vec::new();
            acc.push(rec);
            let mut p = m;
            proof {
                lemma_recs_rest_advances(s@, m as int);
                match sp_recs_rest(s@, m as int) {
                    Some(q) => {
                        assert(views_of(acc@) =~= seq![rec_view(rec)]);
                        assert(seq![rec_view(rec)] + q.0 =~= views_of(acc@) + q.0);
                    },
                    None => {},
                }
            }
            loop
                invariant
                    p <= s@.len(),
                    forall|k: int| 0 <= k < acc@.len() ==> (#[trigger] acc@[k]).wf(),
                    match sp_recs_rest(s@, p as int) {
                        Some(q) => q.1 <= s@.len() && sp_parse_store(s@) == (if skip_ws(s@, q.1)
                            == s@.len() {
                            Some(views_of(acc@) + q.0)
                        } else {
                            None
                        }),
                        None => sp_parse_store(s@) is None,
                    },
                decreases s@.len() - p,
            {
                proof {
                    lemma_recs_rest_advances(s@, p as int);
                }
                let j2 = ex_skip_ws(s, p);
                if j2 < s.len() && s[j2] == ']' {
                    let e = ex_skip_ws(s, j2 + 1);
                    proof {
                        assert(views_of(acc@) + Seq::<RecView>::empty() =~= views_of(acc@));
                    }
                    if e == s.len() {
                        return Some(acc);
                    }
                    return None;
                }
                if !(j2 < s.len() && s[j2] == ',') {
                    return None;
                }
                let k = ex_skip_ws(s, j2 + 1);
                match ex_parse_record(s, k) {
                    None => {
                        return None;
                    },
                    Some((rec2, m2)) => {
                        proof {
                            lemma_record_advances(s@, k as int);
                            lemma_recs_rest_advances(s@, m2 as int);
                            match sp_recs_rest(s@, m2 as int) {
                                Some(q2) => {
                                    assert(views_of(acc@) + (seq![rec_view(rec2)] + q2.0) =~= views_of(
                                        acc@.push(rec2),
                                    ) + q2.0);
                                },
                                None => {},
                            }
                        }
                        acc.push(rec2);
                        p = m2;
                    },
                }
            }
        },
    }
}

} // verus!

verus! {

impl Faces {
    /// Parse store text into a database; any malformed text is reported as
    /// a free-text failure.
    pub fn from_json(text: &str) -> (r: Result<Faces, Error>)
        ensures
            match r {
                Ok(db) => sp_parse_store(text@) == Some(views_of(db.list@)) && db.wf(),
                Err(e) => sp_parse_store(text@) is None && e matches Error::Other(_),
            },
    {
        let chars = str_to_chars(text);
        match ex_parse_store(&chars) {
            Some(v) => Ok(Faces { list: v }),
            None => Err(Error::Other(String::from_str("invalid face store text"))),
        }
    }

    /// Load the store from the backing file's content, or build an empty,
    /// valid database when the file is absent.
    pub fn from_store(content: Option<&str>) -> (r: Result<Faces, Error>)
        ensures
            content is None ==> (r matches Ok(db) && db.list@.len() == 0),
            match r {
                Ok(db) => db.wf(),
                Err(e) => content matches Some(t) && sp_parse_store(t@) is None,
            },
            content matches Some(t) ==> match r {
                Ok(db) => sp_parse_store(t@) == Some(views_of(db.list@)),
                Err(_) => sp_parse_store(t@) is None,
            },
    {
        match content {
            None => Ok(Faces::empty()),
            Some(t) => Faces::from_json(t),
        }
    }
}

} // verus!

verus! {

/// The run of `k` digits at `i` is exactly what the digit scan consumes.
proof fn lemma_digit_run_exact(s: Seq<char>, i: int, k: int)
    requires
        0 <= i,
        0 <= k,
        i + k <= s.len(),
        forall|t: int| 0 <= t < k ==> is_digit(#[trigger] s[i + t]),
        i + k == s.len() || !is_digit(s[i + k]),
    ensures
        digit_run_end(s, i) == i + k,
    decreases k,
{
    if k > 0 {
        assert(is_digit(s[i + 0]));
        assert forall|t: int| 0 <= t < k - 1 implies is_digit(#[trigger] s[i + 1 + t]) by {
            assert(is_digit(s[i + (t + 1)]));
        }
        lemma_digit_run_exact(s, i + 1, k - 1);
    }
}

/// The run of `k` whitespace characters at `i` is exactly what the
/// whitespace scan consumes.
proof fn lemma_skip_ws_run(s: Seq<char>, i: int, k: int)
    requires
        0 <= i,
        0 <= k,
        i + k <= s.len(),
        forall|t: int| 0 <= t < k ==> is_ws(#[trigger] s[i + t]),
        i + k == s.len() || !is_ws(s[i + k]),
    ensures
        skip_ws(s, i) == i + k,
    decreases k,
{
    if k > 0 {
        assert(is_ws(s[i + 0]));
        assert forall|t: int| 0 <= t < k - 1 implies is_ws(#[trigger] s[i + 1 + t]) by {
            assert(is_ws(s[i + (t + 1)]));
        }
        lemma_skip_ws_run(s, i + 1, k - 1);
    }
}

/// Parsing a canonically printed component, when it is followed by a
/// character that cannot continue a number, yields the component back.
proof fn lemma_parse_num_print(s: Seq<char>, i: int, v: i64)
    requires
        -COMP_LIMIT <= v <= COMP_LIMIT,
        0 <= i,
        i + print_num(v).len() <= s.len(),
        s.subrange(i, i + print_num(v).len()) == print_num(v),
        i + print_num(v).len() == s.len() || !(is_digit(s[i + print_num(v).len()]) || s[i
            + print_num(v).len()] == '.' || s[i + print_num(v).len()] == 'e' || s[i + print_num(
            v,
        ).len()] == 'E'),
    ensures
        sp_parse_number(s, i) == Some((v, i + print_num(v).len())),
{
    let a: nat = if v < 0 {
        (-(v as int)) as nat
    } else {
        v as nat
    };
    let q = a / 1000000;
    let f = a % 1000000;
    let ds = dec_digits(q);
    let fs = pad_digits(f, 6);
    lemma_digits_val_dec_digits(q);
    reveal_with_fuel(pow10, 8);
    assert(pow10(6) == 1000000nat);
    lemma_digits_val_pad_digits(f, 6);
    let pn = print_num(v);
    let sign_len: int = if v < 0 {
        1int
    } else {
        0int
    };
    assert(pn.len() == sign_len + ds.len() + 1 + 6);
    assert forall|t: int| 0 <= t < pn.len() implies s[i + t] == pn[t] by {
        assert(s.subrange(i, i + pn.len())[t] == s[i + t]);
    }
    let j0 = i + sign_len;
    if v < 0 {
        assert(pn[0] == '-');
        assert(s[i] == '-');
    }
    assert forall|t: int| 0 <= t < ds.len() implies is_digit(#[trigger] s[j0 + t]) && s[j0 + t]
        == ds[t] by {
        assert(pn[sign_len + t] == ds[t]);
        assert(s[i + (sign_len + t)] == pn[sign_len + t]);
    }
    assert(pn[sign_len + ds.len()] == '.');
    assert(s[i + (sign_len + ds.len())] == pn[sign_len + ds.len()]);
    assert(s[j0 + ds.len()] == '.');
    assert(!is_digit('.'));
    lemma_digit_run_exact(s, j0, ds.len() as int);
    let j1 = j0 + ds.len();
    if v >= 0 {
        assert(pn[0] == ds[0]);
        assert(is_digit(s[i]));
        assert(s[i] != '-');
    }
    let neg = i < s.len() && s[i] == '-';
    assert(neg == (v < 0));
    assert(digit_run_end(s, j0) == j1);
    assert(j1 != j0);
    assert forall|t: int| 0 <= t < ds.len() implies s.subrange(j0, j1)[t] == ds[t] by {
        assert(s.subrange(j0, j1)[t] == s[j0 + t]);
    }
    assert(s.subrange(j0, j1) =~= ds);
    assert forall|t: int| 0 <= t < 6 implies is_digit(#[trigger] s[j1 + 1 + t]) && s[j1 + 1 + t]
        == fs[t] by {
        assert(pn[sign_len + ds.len() + 1 + t] == fs[t]);
        assert(s[i + (sign_len + ds.len() + 1 + t)] == pn[sign_len + ds.len() + 1 + t]);
    }
    lemma_digit_run_exact(s, j1 + 1, 6);
    let j2 = j1 + 7;
    assert(j2 == i + pn.len());
    assert(digit_run_end(s, j1 + 1) == j2);
    assert forall|t: int| 0 <= t < 6 implies s.subrange(j1 + 1, j2)[t] == fs[t] by {
        assert(s.subrange(j1 + 1, j2)[t] == s[j1 + 1 + t]);
    }
    assert(s.subrange(j1 + 1, j2) =~= fs);
    // no exponent follows
    assert(j2 == s.len() || !(s[j2] == 'e' || s[j2] == 'E'));
    // the combined value is the printed component
    lemma_digits_val_append(ds, fs);
    assert(digits_val(ds + fs) == q * pow10(6) + f);
    assert(q * 1000000 + f == a) by (nonlinear_arith)
        requires
            q == a / 1000000,
            f == a % 1000000,
    ;
    let m = digits_val(ds + fs);
    assert(m == a);
    assert(m <= mantissa_cap());
    let shift = 0 - fs.len() + 6;
    assert(shift == 0);
    if m == 0 {
        assert(a == 0);
        assert(v == 0);
        assert(combine_num(neg, ds, fs, 0) == Some(0i64));
    } else {
        lemma_pow10_positive(0);
        assert(pow10(0) == 1nat);
        assert(m * pow10(0) == m) by (nonlinear_arith)
            requires
                pow10(0) == 1nat,
        ;
        lemma_component_fits(a);
        if neg {
            assert(combine_num(neg, ds, fs, 0) == Some((-(a as int)) as i64));
            assert((-(a as int)) as i64 == v);
        } else {
            assert(combine_num(neg, ds, fs, 0) == Some(a as i64));
            assert(a as i64 == v);
        }
    }
    assert(sp_exp_part(s, j2, neg, ds, fs) == Some((v, j2)));
}

} // verus!

verus! {

/// Parsing a canonically escaped label body followed by its closing quote
/// yields the label back.
proof fn lemma_parse_label_print(s: Seq<char>, i: int, l: Seq<char>)
    requires
        0 <= i,
        forall|t: int| 0 <= t < l.len() ==> (#[trigger] l[t]) as u32 >= 0x20,
        i + esc_string(l).len() + 1 <= s.len(),
        s.subrange(i, i + esc_string(l).len() + 1) == esc_string(l) + seq!['"'],
    ensures
        sp_string_body(s, i) == Some((l, i + esc_string(l).len() + 1)),
    decreases l.len(),
{
    let es = esc_string(l);
    assert forall|t: int| 0 <= t < es.len() + 1 implies s[i + t] == (es + seq!['"'])[t] by {
        assert(s.subrange(i, i + es.len() + 1)[t] == s[i + t]);
    }
    if l.len() == 0 {
        assert(es =~= Seq::<char>::empty());
        assert(s.subrange(i, i + es.len() + 1)[0] == s[i]);
        assert(s[i] == '"');
    } else {
        let c = l[0];
        let l1 = l.drop_first();
        let ec = esc_char(c);
        let es1 = esc_string(l1);
        assert(es == ec + es1);
        assert forall|t: int| 0 <= t < ec.len() implies s[i + t] == ec[t] by {
            assert((es + seq!['"'])[t] == (ec + es1)[t]);
        }
        let i1 = i + ec.len();
        assert forall|t: int| 0 <= t < es1.len() + 1 implies s.subrange(
            i1,
            i1 + es1.len() + 1,
        )[t] == (es1 + seq!['"'])[t] by {
            assert(s.subrange(i1, i1 + es1.len() + 1)[t] == s[i1 + t]);
            assert(s[i + (ec.len() + t)] == (es + seq!['"'])[ec.len() + t]);
        }
        assert(s.subrange(i1, i1 + es1.len() + 1) =~= es1 + seq!['"']);
        assert forall|t: int| 0 <= t < l1.len() implies (#[trigger] l1[t]) as u32 >= 0x20 by {
            assert(l[t + 1] as u32 >= 0x20);
        }
        lemma_parse_label_print(s, i1, l1);
        assert(seq![c] + l1 =~= l);
        if c == '"' {
            assert(ec =~= seq!['\\', '"']);
            assert(s[i + 0] == '\\');
            assert(s[i + 1] == '"');
            assert(unesc_char('"') == Some('"'));
        } else if c == '\\' {
            assert(ec =~= seq!['\\', '\\']);
            assert(s[i + 0] == '\\');
            assert(s[i + 1] == '\\');
            assert(unesc_char('\\') == Some('\\'));
        } else {
            assert(ec =~= seq![c]);
            assert(s[i + 0] == c);
            assert(c as u32 >= 0x20);
        }
    }
}

/// The tail of a canonically printed component array, from just after one
/// component to the closing bracket.
pub open spec fn print_nums_rest(vs: Seq<i64>) -> Seq<char>
    decreases vs.len(),
{
    if vs.len() == 0 {
        seq![']']
    } else {
        seq![',', ' '] + print_num(vs[0]) + print_nums_rest(vs.drop_first())
    }
}

/// A printed component list with its closing bracket splits into the first
/// component and the printed tail.
proof fn lemma_print_nums_decomp(vs: Seq<i64>)
    requires
        vs.len() >= 1,
    ensures
        print_nums(vs) + seq![']'] == print_num(vs[0]) + print_nums_rest(vs.drop_first()),
    decreases vs.len(),
{
    if vs.len() == 1 {
        assert(vs.drop_first().len() == 0);
        assert(print_nums(vs) + seq![']'] =~= print_num(vs[0]) + seq![']']);
        assert(print_nums_rest(vs.drop_first()) == seq![']']);
    } else {
        let d = vs.drop_first();
        lemma_print_nums_decomp(d);
        assert(d[0] == vs[1]);
        assert(print_nums(vs) == print_num(vs[0]) + seq![',', ' '] + print_nums(d));
        assert(print_nums_rest(d) == seq![',', ' '] + print_num(d[0]) + print_nums_rest(
            d.drop_first(),
        ));
        assert((print_num(vs[0]) + seq![',', ' '] + print_nums(d)) + seq![']'] =~= print_num(vs[0])
            + (seq![',', ' '] + (print_nums(d) + seq![']'])));
        assert(print_num(vs[0]) + (seq![',', ' '] + (print_num(d[0]) + print_nums_rest(
            d.drop_first(),
        ))) =~= print_num(vs[0]) + print_nums_rest(d));
    }
}

/// The first character of a printed component is a sign or digit, and in
/// particular not whitespace or a structural character.
proof fn lemma_print_num_first(v: i64)
    ensures
        print_num(v).len() >= 8,
        print_num(v)[0] == '-' || is_digit(print_num(v)[0]),
        !is_ws(print_num(v)[0]),
        print_num(v)[0] != '[',
        print_num(v)[0] != ']',
        print_num(v)[0] != '{',
    decreases 0int,
{
    let a: nat = if v < 0 {
        (-(v as int)) as nat
    } else {
        v as nat
    };
    lemma_digits_val_dec_digits(a / 1000000);
    reveal_with_fuel(pow10, 8);
    lemma_digits_val_pad_digits(a % 1000000, 6);
    if v < 0 {
        assert(print_num(v)[0] == '-');
    } else {
        assert(print_num(v)[0] == dec_digits(a / 1000000)[0]);
        assert(is_digit(print_num(v)[0]));
    }
}

/// Parsing the printed tail of a component array yields those components.
proof fn lemma_parse_nums_rest_print(s: Seq<char>, i: int, vs: Seq<i64>)
    requires
        0 <= i,
        forall|t: int| 0 <= t < vs.len() ==> -COMP_LIMIT <= #[trigger] vs[t] <= COMP_LIMIT,
        i + print_nums_rest(vs).len() <= s.len(),
        s.subrange(i, i + print_nums_rest(vs).len()) == print_nums_rest(vs),
    ensures
        sp_nums_rest(s, i) == Some((vs, i + print_nums_rest(vs).len())),
    decreases vs.len(),
{
    let pr = print_nums_rest(vs);
    assert forall|t: int| 0 <= t < pr.len() implies s[i + t] == pr[t] by {
        assert(s.subrange(i, i + pr.len())[t] == s[i + t]);
    }
    if vs.len() == 0 {
        assert(s.subrange(i, i + pr.len())[0] == s[i]);
        assert(s[i] == ']');
        assert(!is_ws(']'));
        assert(skip_ws(s, i) == i);
    } else {
        let v0 = vs[0];
        let d = vs.drop_first();
        let pn = print_num(v0);
        lemma_print_num_first(v0);
        assert(s.subrange(i, i + pr.len())[0] == s[i]);
        assert(s.subrange(i, i + pr.len())[1] == s[i + 1]);
        assert(pr[0] == ',');
        assert(pr[1] == ' ');
        assert(s[i] == ',');
        assert(s[i + 1] == ' ');
        assert(pr[2] == pn[0]);
        assert(s[i + 2] == pn[0]);
        assert(!is_ws(','));
        assert(skip_ws(s, i) == i);
        assert forall|t: int| 0 <= t < 1 implies is_ws(#[trigger] s[i + 1 + t]) by {
            assert(s[i + 1] == ' ');
        }
        lemma_skip_ws_run(s, i + 1, 1);
        assert(skip_ws(s, i + 1) == i + 2);
        // the component at i + 2
        let k = i + 2;
        assert forall|t: int| 0 <= t < pn.len() implies s.subrange(k, k + pn.len())[t] == pn[t] by {
            assert(s.subrange(k, k + pn.len())[t] == s[k + t]);
            assert(pr[2 + t] == pn[t]);
        }
        assert(s.subrange(k, k + pn.len()) =~= pn);
        let pr1 = print_nums_rest(d);
        assert(pr1.len() >= 1);
        assert(pr[2 + pn.len() as int] == pr1[0]);
        assert(s[k + pn.len()] == pr1[0]);
        if d.len() == 0 {
            assert(pr1[0] == ']');
        } else {
            assert(pr1[0] == ',');
        }
        lemma_parse_num_print(s, k, v0);
        let p2 = k + pn.len();
        assert forall|t: int| 0 <= t < pr1.len() implies s.subrange(p2, p2 + pr1.len())[t]
            == pr1[t] by {
            assert(s.subrange(p2, p2 + pr1.len())[t] == s[p2 + t]);
            assert(pr[2 + pn.len() + t] == pr1[t]);
        }
        assert(s.subrange(p2, p2 + pr1.len()) =~= pr1);
        assert forall|t: int| 0 <= t < d.len() implies -COMP_LIMIT <= #[trigger] d[t]
            <= COMP_LIMIT by {
            assert(-COMP_LIMIT <= vs[t + 1] <= COMP_LIMIT);
        }
        lemma_parse_nums_rest_print(s, p2, d);
        assert(seq![v0] + d =~= vs);
    }
}

/// Parsing a canonically printed non-empty component array yields those
/// components.
proof fn lemma_parse_nums_array_print(s: Seq<char>, i: int, vs: Seq<i64>)
    requires
        0 <= i,
        vs.len() >= 1,
        forall|t: int| 0 <= t < vs.len() ==> -COMP_LIMIT <= #[trigger] vs[t] <= COMP_LIMIT,
        i + 2 + print_nums(vs).len() <= s.len(),
        s.subrange(i, i + 2 + print_nums(vs).len()) == seq!['['] + print_nums(vs) + seq![']'],
    ensures
        sp_parse_nums_array(s, i) == Some((vs, i + 2 + print_nums(vs).len())),
{
    let body = seq!['['] + print_nums(vs) + seq![']'];
    assert forall|t: int| 0 <= t < body.len() implies s[i + t] == body[t] by {
        assert(s.subrange(i, i + body.len())[t] == s[i + t]);
    }
    assert(s.subrange(i, i + body.len())[0] == s[i]);
    assert(body[0] == '[');
    assert(s[i] == '[');
    let pn = print_num(vs[0]);
    lemma_print_num_first(vs[0]);
    lemma_print_nums_decomp(vs);
    let pr1 = print_nums_rest(vs.drop_first());
    assert(print_nums(vs) + seq![']'] == pn + pr1);
    assert((pn + pr1).len() == print_nums(vs).len() + 1);
    assert forall|t: int| 0 <= t < (pn + pr1).len() implies s[i + 1 + t] == (pn + pr1)[t] by {
        assert(body[1 + t] == (print_nums(vs) + seq![']'])[t]);
    }
    assert(s.subrange(i, i + body.len())[1] == s[i + 1]);
    assert(body[1] == (print_nums(vs) + seq![']'])[0]);
    assert((print_nums(vs) + seq![']'])[0] == (pn + pr1)[0]);
    assert(s[i + 1] == pn[0]);
    assert(!is_ws(s[i + 1]));
    assert(skip_ws(s, i + 1) == i + 1);
    let k = i + 1;
    assert forall|t: int| 0 <= t < pn.len() implies s.subrange(k, k + pn.len())[t] == pn[t] by {
        assert(s.subrange(k, k + pn.len())[t] == s[k + t]);
        assert((pn + pr1)[t] == pn[t]);
    }
    assert(s.subrange(k, k + pn.len()) =~= pn);
    assert(s[i + 1 + pn.len() as int] == (pn + pr1)[pn.len() as int]);
    assert((pn + pr1)[pn.len() as int] == pr1[0]);
    assert(s[k + pn.len()] == pr1[0]);
    if vs.drop_first().len() == 0 {
        assert(pr1[0] == ']');
    } else {
        assert(pr1[0] == ',');
    }
    lemma_parse_num_print(s, k, vs[0]);
    let p2 = k + pn.len();
    assert forall|t: int| 0 <= t < pr1.len() implies s.subrange(p2, p2 + pr1.len())[t] == pr1[t] by {
        assert(s.subrange(p2, p2 + pr1.len())[t] == s[p2 + t]);
        assert((pn + pr1)[pn.len() + t] == pr1[t]);
    }
    assert(s.subrange(p2, p2 + pr1.len()) =~= pr1);
    assert forall|t: int| 0 <= t < vs.drop_first().len() implies -COMP_LIMIT
        <= #[trigger] vs.drop_first()[t] <= COMP_LIMIT by {
        assert(-COMP_LIMIT <= vs[t + 1] <= COMP_LIMIT);
    }
    lemma_parse_nums_rest_print(s, p2, vs.drop_first());
    assert(seq![vs[0]] + vs.drop_first() =~= vs);
    assert(p2 + pr1.len() == i + 2 + print_nums(vs).len());
}

} // verus!

verus! {

/// Escaping is the identity on text without quotes or backslashes.
proof fn lemma_esc_plain(l: Seq<char>)
    requires
        forall|t: int| 0 <= t < l.len() ==> (#[trigger] l[t]) != '"' && l[t] != '\\',
    ensures
        esc_string(l) == l,
    decreases l.len(),
{
    if l.len() == 0 {
        assert(esc_string(l) =~= l);
    } else {
        assert(l[0] != '"' && l[0] != '\\');
        assert(esc_char(l[0]) == seq![l[0]]);
        assert forall|t: int| 0 <= t < l.drop_first().len() implies (#[trigger] l.drop_first()[t])
            != '"' && l.drop_first()[t] != '\\' by {
            assert(l[t + 1] != '"' && l[t + 1] != '\\');
        }
        lemma_esc_plain(l.drop_first());
        assert(esc_string(l) =~= seq![l[0]] + l.drop_first());
        assert(seq![l[0]] + l.drop_first() =~= l);
    }
}

/// Parsing a canonically printed tagged embedding yields its tag and
/// components.
#[verifier::rlimit(100)]
#[verifier::spinoff_prover]
proof fn lemma_parse_data_print(s: Seq<char>, i: int, mode: FRcgMode, vs: Seq<i64>)
    requires
        0 <= i,
        vs.len() >= 1,
        forall|t: int| 0 <= t < vs.len() ==> -COMP_LIMIT <= #[trigger] vs[t] <= COMP_LIMIT,
        i + print_data(mode, vs).len() <= s.len(),
        s.subrange(i, i + print_data(mode, vs).len()) == print_data(mode, vs),
    ensures
        sp_parse_data(s, i) == Some(((mode, vs), i + print_data(mode, vs).len())),
{
    reveal_strlit("{\"model\": \"");
    reveal_strlit("\", \"emb\": [");
    reveal_strlit("]}");
    reveal_strlit("\"model\"");
    reveal_strlit("\"emb\"");
    reveal_strlit("dlib");
    reveal_strlit("sface");
    let pa = "{\"model\": \""@;
    let nm = mode_name(mode);
    let pb = "\", \"emb\": ["@;
    let pv = print_nums(vs);
    let pc = "]}"@;
    let pd = print_data(mode, vs);
    assert(pa.len() == 11);
    assert(pb.len() == 11);
    assert(pc.len() == 2);
    let n = nm.len() as int;
    let v = pv.len() as int;
    if mode == FRcgMode::Dlib {
        assert(nm.len() == 4);
    } else {
        assert(nm.len() == 5);
    }
    assert(pd.len() == 24 + n + v);
    assert forall|t: int| 0 <= t < pd.len() implies s[i + t] == pd[t] by {
        assert(s.subrange(i, i + pd.len())[t] == s[i + t]);
    }
    assert(s[i + 0] == pd[0]);
    assert(pd[0] == '{');
    // "model" key
    assert(s[i + 1] == pd[1] && pd[1] == '"');
    assert(skip_ws(s, i + 1) == i + 1);
    assert forall|t: int| 0 <= t < 7 implies s.subrange(i + 1, i + 8)[t] == "\"model\""@[t] by {
        assert(s.subrange(i + 1, i + 8)[t] == s[i + 1 + t]);
        assert(pd[1 + t] == pa[1 + t]);
    }
    assert(s.subrange(i + 1, i + 8) =~= "\"model\""@);
    assert(match_lit(s, i + 1, "\"model\""@));
    assert(s[i + 8] == pd[8] && pd[8] == ':');
    assert(skip_ws(s, i + 8) == i + 8);
    assert(s[i + 9] == pd[9] && pd[9] == ' ');
    assert(s[i + 10] == pd[10] && pd[10] == '"');
    assert forall|t: int| 0 <= t < 1 implies is_ws(#[trigger] s[i + 9 + t]) by {
        assert(s[i + 9] == ' ');
    }
    lemma_skip_ws_run(s, i + 9, 1);
    assert(skip_ws(s, i + 9) == i + 10);
    // the model name string
    assert forall|t: int| 0 <= t < nm.len() implies (#[trigger] nm[t]) != '"' && nm[t] != '\\'
        && nm[t] as u32 >= 0x20 by {
        if mode == FRcgMode::Dlib {
            assert(nm[t] == "dlib"@[t]);
        } else {
            assert(nm[t] == "sface"@[t]);
        }
    }
    lemma_esc_plain(nm);
    assert forall|t: int| 0 <= t < n + 1 implies s.subrange(i + 11, i + 12 + n)[t] == (nm + seq![
        '"',
    ])[t] by {
        assert(s.subrange(i + 11, i + 12 + n)[t] == s[i + 11 + t]);
        if t < n {
            assert(pd[11 + t] == nm[t]);
        } else {
            assert(pd[11 + n] == pb[0] && pb[0] == '"');
        }
    }
    assert(s.subrange(i + 11, i + 12 + n) =~= nm + seq!['"']);
    lemma_parse_label_print(s, i + 11, nm);
    assert(sp_string_body(s, i + 11) == Some((nm, i + 12 + n)));
    if mode == FRcgMode::Dlib {
        assert(nm == "dlib"@);
    } else {
        assert(nm == "sface"@);
        assert("sface"@.len() != "dlib"@.len());
        assert(nm != "dlib"@);
    }
    // ", " before the "emb" key
    assert(s[i + 12 + n] == pd[12 + n] && pd[12 + n] == pb[1] && pb[1] == ',');
    assert(skip_ws(s, i + 12 + n) == i + 12 + n);
    assert(s[i + 13 + n] == pd[13 + n] && pd[13 + n] == pb[2] && pb[2] == ' ');
    assert(s[i + 14 + n] == pd[14 + n] && pd[14 + n] == pb[3] && pb[3] == '"');
    assert forall|t: int| 0 <= t < 1 implies is_ws(#[trigger] s[i + 13 + n + t]) by {
        assert(s[i + 13 + n] == ' ');
    }
    lemma_skip_ws_run(s, i + 13 + n, 1);
    assert(skip_ws(s, i + 13 + n) == i + 14 + n);
    assert forall|t: int| 0 <= t < 5 implies s.subrange(i + 14 + n, i + 19 + n)[t]
        == "\"emb\""@[t] by {
        assert(s.subrange(i + 14 + n, i + 19 + n)[t] == s[i + 14 + n + t]);
        assert(pd[14 + n + t] == pb[3 + t]);
    }
    assert(s.subrange(i + 14 + n, i + 19 + n) =~= "\"emb\""@);
    assert(match_lit(s, i + 14 + n, "\"emb\""@));
    assert(s[i + 19 + n] == pd[19 + n] && pd[19 + n] == pb[8] && pb[8] == ':');
    assert(skip_ws(s, i + 19 + n) == i + 19 + n);
    assert(s[i + 20 + n] == pd[20 + n] && pd[20 + n] == pb[9] && pb[9] == ' ');
    assert(s[i + 21 + n] == pd[21 + n] && pd[21 + n] == pb[10] && pb[10] == '[');
    assert forall|t: int| 0 <= t < 1 implies is_ws(#[trigger] s[i + 20 + n + t]) by {
        assert(s[i + 20 + n] == ' ');
    }
    lemma_skip_ws_run(s, i + 20 + n, 1);
    assert(skip_ws(s, i + 20 + n) == i + 21 + n);
    // the component array
    assert forall|t: int| 0 <= t < v + 2 implies s.subrange(i + 21 + n, i + 23 + n + v)[t] == (seq![
        '[',
    ] + pv + seq![']'])[t] by {
        assert(s.subrange(i + 21 + n, i + 23 + n + v)[t] == s[i + 21 + n + t]);
        if t == 0 {
            assert(pd[21 + n] == pb[10]);
        } else if t < v + 1 {
            assert(pd[22 + n + (t - 1)] == pv[t - 1]);
        } else {
            assert(pd[22 + n + v] == pc[0] && pc[0] == ']');
        }
    }
    assert(s.subrange(i + 21 + n, i + 23 + n + v) =~= seq!['['] + pv + seq![']']);
    lemma_parse_nums_array_print(s, i + 21 + n, vs);
    assert(sp_parse_nums_array(s, i + 21 + n) == Some((vs, i + 23 + n + v)));
    // closing brace
    assert(s[i + 23 + n + v] == pd[23 + n + v] && pd[23 + n + v] == pc[1] && pc[1] == '}');
    assert(skip_ws(s, i + 23 + n + v) == i + 23 + n + v);
}

} // verus!

verus! {

/// The canonical record text without its two-space indent.
pub open spec fn print_rec_body(r: RecView) -> Seq<char> {
    "{\"time\": "@ + dec_digits(r.time as nat) + ", \"label\": "@ + print_label(r.label)
        + ", \"id\": "@ + dec_digits(r.id as nat) + ", \"data\": "@ + print_data(r.mode, r.comps)
        + seq!['}']
}

/// A printed record is its indent followed by its body.
proof fn lemma_print_rec_split(r: RecView)
    ensures
        print_rec(r) == "  "@ + print_rec_body(r),
        print_rec(r).len() == print_rec_body(r).len() + 2,
{
    reveal_strlit("  {\"time\": ");
    reveal_strlit("  ");
    reveal_strlit("{\"time\": ");
    assert("  {\"time\": "@ =~= "  "@ + "{\"time\": "@);
    assert(print_rec(r) =~= "  "@ + print_rec_body(r));
}

/// Parsing printed decimal digits followed by a non-digit yields the number.
proof fn lemma_parse_u64_print(s: Seq<char>, i: int, x: u64)
    requires
        0 <= i,
        i + dec_digits(x as nat).len() <= s.len(),
        s.subrange(i, i + dec_digits(x as nat).len()) == dec_digits(x as nat),
        i + dec_digits(x as nat).len() == s.len() || !is_digit(s[i + dec_digits(x as nat).len()]),
    ensures
        sp_parse_u64(s, i) == Some((x, i + dec_digits(x as nat).len())),
{
    let ds = dec_digits(x as nat);
    lemma_digits_val_dec_digits(x as nat);
    assert forall|t: int| 0 <= t < ds.len() implies is_digit(#[trigger] s[i + t]) by {
        assert(s.subrange(i, i + ds.len())[t] == s[i + t]);
        assert(is_digit(ds[t]));
    }
    lemma_digit_run_exact(s, i, ds.len() as int);
    assert(digit_run_end(s, i) == i + ds.len());
    assert(s.subrange(i, i + ds.len()) == ds);
    assert(digits_val(ds) == x as nat);
}

/// Parsing a canonically printed record body yields the record.
#[verifier::rlimit(100)]
#[verifier::spinoff_prover]
proof fn lemma_parse_record_print(s: Seq<char>, i: int, r: RecView)
    requires
        0 <= i,
        rec_printable(r),
        i + print_rec_body(r).len() <= s.len(),
        s.subrange(i, i + print_rec_body(r).len()) == print_rec_body(r),
    ensures
        sp_parse_record(s, i) == Some((r, i + print_rec_body(r).len())),
{
    reveal_strlit("{\"time\": ");
    reveal_strlit(", \"label\": ");
    reveal_strlit(", \"id\": ");
    reveal_strlit(", \"data\": ");
    reveal_strlit("\"time\"");
    reveal_strlit("\"label\"");
    reveal_strlit("\"id\"");
    reveal_strlit("\"data\"");
    let pa = "{\"time\": "@;
    let ts = dec_digits(r.time as nat);
    let pb = ", \"label\": "@;
    let pl = print_label(r.label);
    let pc = ", \"id\": "@;
    let ids = dec_digits(r.id as nat);
    let pd2 = ", \"data\": "@;
    let pp = print_data(r.mode, r.comps);
    let body = print_rec_body(r);
    lemma_digits_val_dec_digits(r.time as nat);
    lemma_digits_val_dec_digits(r.id as nat);
    assert(pa.len() == 9);
    assert(pb.len() == 11);
    assert(pc.len() == 8);
    assert(pd2.len() == 10);
    let t = ts.len() as int;
    let l = pl.len() as int;
    let idn = ids.len() as int;
    let p = pp.len() as int;
    assert(body.len() == 39 + t + l + idn + p);
    assert forall|q: int| 0 <= q < body.len() implies s[i + q] == body[q] by {
        assert(s.subrange(i, i + body.len())[q] == s[i + q]);
    }
    assert(s[i + 0] == body[0] && body[0] == '{');
    assert(s[i + 1] == body[1] && body[1] == '"');
    assert(skip_ws(s, i + 1) == i + 1);
    assert forall|q: int| 0 <= q < 6 implies s.subrange(i + 1, i + 7)[q] == "\"time\""@[q] by {
        assert(s.subrange(i + 1, i + 7)[q] == s[i + 1 + q]);
        assert(body[1 + q] == pa[1 + q]);
    }
    assert(s.subrange(i + 1, i + 7) =~= "\"time\""@);
    assert(match_lit(s, i + 1, "\"time\""@));
    assert(s[i + 7] == body[7] && body[7] == pa[7] && pa[7] == ':');
    assert(skip_ws(s, i + 7) == i + 7);
    assert(s[i + 8] == body[8] && body[8] == pa[8] && pa[8] == ' ');
    assert(s[i + 9] == body[9] && body[9] == ts[0]);
    assert(is_digit(ts[0]));
    assert forall|q: int| 0 <= q < 1 implies is_ws(#[trigger] s[i + 8 + q]) by {
        assert(s[i + 8] == ' ');
    }
    lemma_skip_ws_run(s, i + 8, 1);
    assert(skip_ws(s, i + 8) == i + 9);
    // the time value
    assert forall|q: int| 0 <= q < t implies s.subrange(i + 9, i + 9 + t)[q] == ts[q] by {
        assert(s.subrange(i + 9, i + 9 + t)[q] == s[i + 9 + q]);
        assert(body[9 + q] == ts[q]);
    }
    assert(s.subrange(i + 9, i + 9 + t) =~= ts);
    assert(s[i + 9 + t] == body[9 + t] && body[9 + t] == pb[0] && pb[0] == ',');
    assert(!is_digit(','));
    lemma_parse_u64_print(s, i + 9, r.time);
    assert(sp_parse_u64(s, skip_ws(s, i + 8)) == Some((r.time, i + 9 + t)));
    // ", " before the label key
    assert(skip_ws(s, i + 9 + t) == i + 9 + t);
    assert(s[i + 10 + t] == body[10 + t] && body[10 + t] == pb[1] && pb[1] == ' ');
    assert(s[i + 11 + t] == body[11 + t] && body[11 + t] == pb[2] && pb[2] == '"');
    assert forall|q: int| 0 <= q < 1 implies is_ws(#[trigger] s[i + 10 + t + q]) by {
        assert(s[i + 10 + t] == ' ');
    }
    lemma_skip_ws_run(s, i + 10 + t, 1);
    assert(skip_ws(s, i + 10 + t) == i + 11 + t);
    assert forall|q: int| 0 <= q < 7 implies s.subrange(i + 11 + t, i + 18 + t)[q]
        == "\"label\""@[q] by {
        assert(s.subrange(i + 11 + t, i + 18 + t)[q] == s[i + 11 + t + q]);
        assert(body[11 + t + q] == pb[2 + q]);
    }
    assert(s.subrange(i + 11 + t, i + 18 + t) =~= "\"label\""@);
    assert(match_lit(s, i + 11 + t, "\"label\""@));
    assert(s[i + 18 + t] == body[18 + t] && body[18 + t] == pb[9] && pb[9] == ':');
    assert(skip_ws(s, i + 18 + t) == i + 18 + t);
    assert(s[i + 19 + t] == body[19 + t] && body[19 + t] == pb[10] && pb[10] == ' ');
    assert(s[i + 20 + t] == body[20 + t] && body[20 + t] == pl[0]);
    assert(pl[0] == '"');
    assert forall|q: int| 0 <= q < 1 implies is_ws(#[trigger] s[i + 19 + t + q]) by {
        assert(s[i + 19 + t] == ' ');
    }
    lemma_skip_ws_run(s, i + 19 + t, 1);
    assert(skip_ws(s, i + 19 + t) == i + 20 + t);
    lemma_record_tail(s, i, r, i + 20 + t);
}

/// The rest of the record walk, from the label's opening quote.
#[verifier::rlimit(100)]
#[verifier::spinoff_prover]
proof fn lemma_record_tail(s: Seq<char>, i: int, r: RecView, j7: int)
    requires
        0 <= i,
        rec_printable(r),
        i + print_rec_body(r).len() <= s.len(),
        s.subrange(i, i + print_rec_body(r).len()) == print_rec_body(r),
        j7 == i + 20 + dec_digits(r.time as nat).len(),
    ensures
        sp_record_after_label(s, i, j7, r.time) == Some((r, i + print_rec_body(r).len())),
{
    reveal_strlit("{\"time\": ");
    reveal_strlit(", \"label\": ");
    reveal_strlit(", \"id\": ");
    reveal_strlit(", \"data\": ");
    reveal_strlit("\"id\"");
    reveal_strlit("\"data\"");
    let pa = "{\"time\": "@;
    let ts = dec_digits(r.time as nat);
    let pb = ", \"label\": "@;
    let pl = print_label(r.label);
    let pc = ", \"id\": "@;
    let ids = dec_digits(r.id as nat);
    let pd2 = ", \"data\": "@;
    let pp = print_data(r.mode, r.comps);
    let body = print_rec_body(r);
    lemma_digits_val_dec_digits(r.time as nat);
    lemma_digits_val_dec_digits(r.id as nat);
    assert(pa.len() == 9);
    assert(pb.len() == 11);
    assert(pc.len() == 8);
    assert(pd2.len() == 10);
    let t = ts.len() as int;
    let es = esc_string(r.label);
    let e = es.len() as int;
    assert(pl.len() == e + 2);
    let l = pl.len() as int;
    let idn = ids.len() as int;
    let p = pp.len() as int;
    assert(body.len() == 39 + t + l + idn + p);
    assert forall|q: int| 0 <= q < body.len() implies s[i + q] == body[q] by {
        assert(s.subrange(i, i + body.len())[q] == s[i + q]);
    }
    // the label string body
    assert forall|q: int| 0 <= q < e + 1 implies s.subrange(j7 + 1, j7 + 2 + e)[q] == (es + seq![
        '"',
    ])[q] by {
        assert(s.subrange(j7 + 1, j7 + 2 + e)[q] == s[j7 + 1 + q]);
        assert(body[21 + t + q] == pl[1 + q]);
        assert(pl[1 + q] == (es + seq!['"'])[q]);
    }
    assert(s.subrange(j7 + 1, j7 + 2 + e) =~= es + seq!['"']);
    lemma_parse_label_print(s, j7 + 1, r.label);
    assert(sp_string_body(s, j7 + 1) == Some((r.label, j7 + 2 + e)));
    let q0 = i + 20 + t + l;
    assert(j7 + 2 + e == q0);
    // ", " before the id key
    assert(s[q0] == body[20 + t + l] && body[20 + t + l] == pc[0] && pc[0] == ',');
    assert(skip_ws(s, q0) == q0);
    assert(s[q0 + 1] == body[21 + t + l] && body[21 + t + l] == pc[1] && pc[1] == ' ');
    assert(s[q0 + 2] == body[22 + t + l] && body[22 + t + l] == pc[2] && pc[2] == '"');
    assert forall|q: int| 0 <= q < 1 implies is_ws(#[trigger] s[q0 + 1 + q]) by {
        assert(s[q0 + 1] == ' ');
    }
    lemma_skip_ws_run(s, q0 + 1, 1);
    assert(skip_ws(s, q0 + 1) == q0 + 2);
    assert forall|q: int| 0 <= q < 4 implies s.subrange(q0 + 2, q0 + 6)[q] == "\"id\""@[q] by {
        assert(s.subrange(q0 + 2, q0 + 6)[q] == s[q0 + 2 + q]);
        assert(body[22 + t + l + q] == pc[2 + q]);
    }
    assert(s.subrange(q0 + 2, q0 + 6) =~= "\"id\""@);
    assert(match_lit(s, q0 + 2, "\"id\""@));
    assert(s[q0 + 6] == body[26 + t + l] && body[26 + t + l] == pc[6] && pc[6] == ':');
    assert(skip_ws(s, q0 + 6) == q0 + 6);
    assert(s[q0 + 7] == body[27 + t + l] && body[27 + t + l] == pc[7] && pc[7] == ' ');
    assert(s[q0 + 8] == body[28 + t + l] && body[28 + t + l] == ids[0]);
    assert(is_digit(ids[0]));
    assert forall|q: int| 0 <= q < 1 implies is_ws(#[trigger] s[q0 + 7 + q]) by {
        assert(s[q0 + 7] == ' ');
    }
    lemma_skip_ws_run(s, q0 + 7, 1);
    assert(skip_ws(s, q0 + 7) == q0 + 8);
    // the id value
    assert forall|q: int| 0 <= q < idn implies s.subrange(q0 + 8, q0 + 8 + idn)[q] == ids[q] by {
        assert(s.subrange(q0 + 8, q0 + 8 + idn)[q] == s[q0 + 8 + q]);
        assert(body[28 + t + l + q] == ids[q]);
    }
    assert(s.subrange(q0 + 8, q0 + 8 + idn) =~= ids);
    assert(s[q0 + 8 + idn] == body[28 + t + l + idn] && body[28 + t + l + idn] == pd2[0] && pd2[0]
        == ',');
    assert(!is_digit(','));
    lemma_parse_u64_print(s, q0 + 8, r.id);
    let q2 = q0 + 8 + idn;
    // ", " before the data key
    assert(skip_ws(s, q2) == q2);
    assert(s[q2 + 1] == body[29 + t + l + idn] && body[29 + t + l + idn] == pd2[1] && pd2[1]
        == ' ');
    assert(s[q2 + 2] == body[30 + t + l + idn] && body[30 + t + l + idn] == pd2[2] && pd2[2]
        == '"');
    assert forall|q: int| 0 <= q < 1 implies is_ws(#[trigger] s[q2 + 1 + q]) by {
        assert(s[q2 + 1] == ' ');
    }
    lemma_skip_ws_run(s, q2 + 1, 1);
    assert(skip_ws(s, q2 + 1) == q2 + 2);
    assert forall|q: int| 0 <= q < 6 implies s.subrange(q2 + 2, q2 + 8)[q] == "\"data\""@[q] by {
        assert(s.subrange(q2 + 2, q2 + 8)[q] == s[q2 + 2 + q]);
        assert(body[30 + t + l + idn + q] == pd2[2 + q]);
    }
    assert(s.subrange(q2 + 2, q2 + 8) =~= "\"data\""@);
    assert(match_lit(s, q2 + 2, "\"data\""@));
    assert(s[q2 + 8] == body[36 + t + l + idn] && body[36 + t + l + idn] == pd2[8] && pd2[8]
        == ':');
    assert(skip_ws(s, q2 + 8) == q2 + 8);
    assert(s[q2 + 9] == body[37 + t + l + idn] && body[37 + t + l + idn] == pd2[9] && pd2[9]
        == ' ');
    assert(s[q2 + 10] == body[38 + t + l + idn] && body[38 + t + l + idn] == pp[0]);
    reveal_strlit("{\"model\": \"");
    assert(pp[0] == '{');
    assert forall|q: int| 0 <= q < 1 implies is_ws(#[trigger] s[q2 + 9 + q]) by {
        assert(s[q2 + 9] == ' ');
    }
    lemma_skip_ws_run(s, q2 + 9, 1);
    assert(skip_ws(s, q2 + 9) == q2 + 10);
    // the data object
    let q3 = q2 + 10;
    assert forall|q: int| 0 <= q < p implies s.subrange(q3, q3 + p)[q] == pp[q] by {
        assert(s.subrange(q3, q3 + p)[q] == s[q3 + q]);
        assert(body[38 + t + l + idn + q] == pp[q]);
    }
    assert(s.subrange(q3, q3 + p) =~= pp);
    lemma_parse_data_print(s, q3, r.mode, r.comps);
    assert(sp_parse_data(s, q3) == Some(((r.mode, r.comps), q3 + p)));
    // closing brace
    assert(s[q3 + p] == body[38 + t + l + idn + p] && body[38 + t + l + idn + p] == '}');
    assert(skip_ws(s, q3 + p) == q3 + p);
    assert(1 <= r.comps.len() <= MAX_COMPONENTS as int);
    let built = RecView { time: r.time, label: r.label, id: r.id, mode: r.mode, comps: r.comps };
    assert(built == r);
    assert(q3 + p + 1 == i + body.len());
}

} // verus!

verus! {

/// The tail of the printed store after one record: the remaining records
/// and the closing bracket on its own line.
pub open spec fn print_recs_rest(rs: Seq<RecView>) -> Seq<char>
    decreases rs.len(),
{
    if rs.len() == 0 {
        "\n]"@
    } else {
        seq![',', '\n'] + print_rec(rs[0]) + print_recs_rest(rs.drop_first())
    }
}

/// A printed record list with the closing text splits into the first
/// record and the printed tail.
proof fn lemma_print_recs_decomp(rs: Seq<RecView>)
    requires
        rs.len() >= 1,
    ensures
        print_recs(rs) + "\n]"@ == print_rec(rs[0]) + print_recs_rest(rs.drop_first()),
    decreases rs.len(),
{
    if rs.len() == 1 {
        assert(rs.drop_first().len() == 0);
        assert(print_recs(rs) + "\n]"@ =~= print_rec(rs[0]) + "\n]"@);
    } else {
        let d = rs.drop_first();
        lemma_print_recs_decomp(d);
        assert(d[0] == rs[1]);
        assert(print_recs(rs) == print_rec(rs[0]) + seq![',', '\n'] + print_recs(d));
        assert((print_rec(rs[0]) + seq![',', '\n'] + print_recs(d)) + "\n]"@ =~= print_rec(rs[0])
            + (seq![',', '\n'] + (print_recs(d) + "\n]"@)));
        assert(print_rec(rs[0]) + (seq![',', '\n'] + (print_rec(d[0]) + print_recs_rest(
            d.drop_first(),
        ))) =~= print_rec(rs[0]) + print_recs_rest(d));
    }
}

/// The first characters of a printed record are its indent and brace.
proof fn lemma_print_rec_first(r: RecView)
    ensures
        print_rec(r).len() >= 3,
        print_rec(r)[0] == ' ',
        print_rec(r)[1] == ' ',
        print_rec(r)[2] == '{',
{
    lemma_print_rec_split(r);
    reveal_strlit("  ");
    reveal_strlit("{\"time\": ");
    assert(print_rec_body(r)[0] == '{');
    assert(print_rec(r)[0] == "  "@[0]);
    assert(print_rec(r)[1] == "  "@[1]);
    assert(print_rec(r)[2] == print_rec_body(r)[0]);
}

/// Parsing the printed tail of the record list yields those records.
#[verifier::rlimit(100)]
#[verifier::spinoff_prover]
proof fn lemma_parse_recs_rest_print(s: Seq<char>, i: int, rs: Seq<RecView>)
    requires
        0 <= i,
        store_printable(rs),
        i + print_recs_rest(rs).len() <= s.len(),
        s.subrange(i, i + print_recs_rest(rs).len()) == print_recs_rest(rs),
    ensures
        sp_recs_rest(s, i) == Some((rs, i + print_recs_rest(rs).len())),
    decreases rs.len(),
{
    reveal_strlit("\n]");
    let pr = print_recs_rest(rs);
    assert forall|t: int| 0 <= t < pr.len() implies s[i + t] == pr[t] by {
        assert(s.subrange(i, i + pr.len())[t] == s[i + t]);
    }
    if rs.len() == 0 {
        assert(pr.len() == 2);
        assert(s[i + 0] == pr[0] && pr[0] == '\n');
        assert(s[i + 1] == pr[1] && pr[1] == ']');
        assert forall|t: int| 0 <= t < 1 implies is_ws(#[trigger] s[i + t]) by {
            assert(s[i + 0] == '\n');
        }
        lemma_skip_ws_run(s, i, 1);
        assert(skip_ws(s, i) == i + 1);
    } else {
        let r0 = rs[0];
        assert(rec_printable(r0));
        let d = rs.drop_first();
        let rb = print_rec_body(r0);
        lemma_print_rec_split(r0);
        lemma_print_rec_first(r0);
        let prc = print_rec(r0);
        assert(s[i + 0] == pr[0] && pr[0] == ',');
        assert(skip_ws(s, i) == i);
        assert(s[i + 1] == pr[1] && pr[1] == '\n');
        assert(pr[2] == prc[0] && prc[0] == ' ');
        assert(pr[3] == prc[1] && prc[1] == ' ');
        assert(pr[4] == prc[2] && prc[2] == '{');
        assert(s[i + 2] == ' ');
        assert(s[i + 3] == ' ');
        assert(s[i + 4] == '{');
        assert forall|t: int| 0 <= t < 3 implies is_ws(#[trigger] s[i + 1 + t]) by {
            assert(s[i + 1] == '\n');
            assert(s[i + 2] == ' ');
            assert(s[i + 3] == ' ');
        }
        lemma_skip_ws_run(s, i + 1, 3);
        assert(skip_ws(s, i + 1) == i + 4);
        // the record body at i + 4
        let b = rb.len() as int;
        assert forall|t: int| 0 <= t < b implies s.subrange(i + 4, i + 4 + b)[t] == rb[t] by {
            assert(s.subrange(i + 4, i + 4 + b)[t] == s[i + 4 + t]);
            assert(pr[2 + (2 + t)] == prc[2 + t]);
            assert(prc[2 + t] == rb[t]);
        }
        assert(s.subrange(i + 4, i + 4 + b) =~= rb);
        lemma_parse_record_print(s, i + 4, r0);
        assert(sp_parse_record(s, i + 4) == Some((r0, i + 4 + b)));
        // the remaining records
        let p2 = i + 4 + b;
        let pr1 = print_recs_rest(d);
        assert(pr.len() == 2 + prc.len() + pr1.len());
        assert forall|t: int| 0 <= t < pr1.len() implies s.subrange(p2, p2 + pr1.len())[t]
            == pr1[t] by {
            assert(s.subrange(p2, p2 + pr1.len())[t] == s[p2 + t]);
            assert(pr[2 + prc.len() + t] == pr1[t]);
        }
        assert(s.subrange(p2, p2 + pr1.len()) =~= pr1);
        assert forall|t: int| 0 <= t < d.len() implies rec_printable(#[trigger] d[t]) by {
            assert(rec_printable(rs[t + 1]));
        }
        lemma_parse_recs_rest_print(s, p2, d);
        assert(seq![r0] + d =~= rs);
    }
}

/// A non-empty printed store splits into its opening line, first record
/// and printed tail.
proof fn lemma_store_shape(rs: Seq<RecView>)
    requires
        rs.len() >= 1,
    ensures
        print_store(rs) == "[\n"@ + (print_rec(rs[0]) + print_recs_rest(rs.drop_first())),
{
    lemma_print_recs_decomp(rs);
    assert(print_store(rs) == "[\n"@ + print_recs(rs) + "\n]"@);
    assert("[\n"@ + print_recs(rs) + "\n]"@ =~= "[\n"@ + (print_recs(rs) + "\n]"@));
}

/// The character-level layout of the split shape of a non-empty printed
/// store.
#[verifier::rlimit(100)]
#[verifier::spinoff_prover]
proof fn lemma_store_layout(s: Seq<char>, rs: Seq<RecView>)
    requires
        rs.len() >= 1,
        s == "[\n"@ + (print_rec(rs[0]) + print_recs_rest(rs.drop_first())),
    ensures
        s.len() == 4 + print_rec_body(rs[0]).len() + print_recs_rest(rs.drop_first()).len(),
        s[0] == '[',
        s[1] == '\n',
        s[2] == ' ',
        s[3] == ' ',
        s.subrange(4, 4 + print_rec_body(rs[0]).len() as int) == print_rec_body(rs[0]),
        s.subrange(4 + print_rec_body(rs[0]).len() as int, s.len() as int) == print_recs_rest(
            rs.drop_first(),
        ),
{
    reveal_strlit("[\n");
    let r0 = rs[0];
    let d = rs.drop_first();
    let rb = print_rec_body(r0);
    lemma_print_rec_split(r0);
    lemma_print_rec_first(r0);
    let prc = print_rec(r0);
    let pr1 = print_recs_rest(d);
    let b = rb.len() as int;
    assert forall|t: int| 0 <= t < (prc + pr1).len() implies s[2 + t] == (prc + pr1)[t] by {
        assert(("[\n"@ + (prc + pr1))[2 + t] == (prc + pr1)[t]);
    }
    assert(s[0] == '[');
    assert(s[1] == '\n');
    assert(s[2] == (prc + pr1)[0] && (prc + pr1)[0] == prc[0] && prc[0] == ' ');
    assert(s[3] == (prc + pr1)[1] && (prc + pr1)[1] == prc[1] && prc[1] == ' ');
    assert forall|t: int| 0 <= t < b implies s.subrange(4, 4 + b)[t] == rb[t] by {
        assert(s.subrange(4, 4 + b)[t] == s[4 + t]);
        assert(s[2 + (2 + t)] == (prc + pr1)[2 + t]);
        assert((prc + pr1)[2 + t] == prc[2 + t]);
        assert(prc[2 + t] == rb[t]);
    }
    assert(s.subrange(4, 4 + b) =~= rb);
    let p2 = 4 + b;
    assert forall|t: int| 0 <= t < pr1.len() implies s.subrange(p2, s.len() as int)[t] == pr1[t] by {
        assert(s.subrange(p2, s.len() as int)[t] == s[p2 + t]);
        assert(s[2 + (prc.len() + t)] == (prc + pr1)[prc.len() + t]);
        assert((prc + pr1)[prc.len() + t] == pr1[t]);
    }
    assert(s.subrange(p2, s.len() as int) =~= pr1);
}

/// Parsing the split shape of a non-empty printed store yields the
/// records.
#[verifier::rlimit(100)]
#[verifier::spinoff_prover]
proof fn lemma_store_nonempty_parse(s: Seq<char>, rs: Seq<RecView>)
    requires
        rs.len() >= 1,
        store_printable(rs),
        s.len() == 4 + print_rec_body(rs[0]).len() + print_recs_rest(rs.drop_first()).len(),
        s[0] == '[',
        s[1] == '\n',
        s[2] == ' ',
        s[3] == ' ',
        s.subrange(4, 4 + print_rec_body(rs[0]).len() as int) == print_rec_body(rs[0]),
        s.subrange(4 + print_rec_body(rs[0]).len() as int, s.len() as int) == print_recs_rest(
            rs.drop_first(),
        ),
    ensures
        sp_parse_store(s) == Some(rs),
{
    let r0 = rs[0];
    assert(rec_printable(r0));
    let d = rs.drop_first();
    let rb = print_rec_body(r0);
    let pr1 = print_recs_rest(d);
    let b = rb.len() as int;
    assert(!is_ws('['));
    assert(skip_ws(s, 0) == 0);
    assert forall|t: int| 0 <= t < 3 implies is_ws(#[trigger] s[1 + t]) by {
        assert(s[1] == '\n');
        assert(s[2] == ' ');
        assert(s[3] == ' ');
    }
    reveal_strlit("{\"time\": ");
    assert(rb[0] == '{');
    assert(s.subrange(4, 4 + b)[0] == s[4]);
    assert(s[4] == '{');
    lemma_skip_ws_run(s, 1, 3);
    assert(skip_ws(s, 1) == 4);
    lemma_parse_record_print(s, 4, r0);
    assert(sp_parse_record(s, 4) == Some((r0, 4 + b)));
    let p2 = 4 + b;
    assert forall|t: int| 0 <= t < d.len() implies rec_printable(#[trigger] d[t]) by {
        assert(rec_printable(rs[t + 1]));
    }
    lemma_parse_recs_rest_print(s, p2, d);
    assert(sp_recs_rest(s, p2) == Some((d, p2 + pr1.len())));
    assert(p2 + pr1.len() == s.len());
    assert(skip_ws(s, s.len() as int) == s.len());
    assert(seq![r0] + d =~= rs);
}

/// Saving a database and loading the text back yields the same ordered
/// records: the loader inverts the canonical printer on every printable
/// store.
pub proof fn lemma_store_round_trip(rs: Seq<RecView>)
    requires
        store_printable(rs),
    ensures
        sp_parse_store(print_store(rs)) == Some(rs),
{
    let s = print_store(rs);
    if rs.len() == 0 {
        reveal_strlit("[]");
        assert(s.len() == 2);
        assert(s[0] == '[');
        assert(s[1] == ']');
        assert(skip_ws(s, 0) == 0);
        assert(skip_ws(s, 1) == 1);
        assert(skip_ws(s, 2) == 2);
        assert(Seq::<RecView>::empty() =~= rs);
    } else {
        lemma_store_shape(rs);
        lemma_store_layout(s, rs);
        lemma_store_nonempty_parse(s, rs);
    }
}

} // verus!
