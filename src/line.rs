use vstd::prelude::*;
use crate::resonance::{fields_of, format_line, interleave, labels, is_fixed6, is_unsigned_fixed6, labels_of, line_text, Resonance, Tag};
use crate::text::{decimal, is_digit, lemma_decimal_digits, lemma_decimal_reads_back, parse_prime, unsigned_value};

verus! {

/// A character that can stand inside a field of a line.
pub open spec fn is_field_char(c: char) -> bool {
    is_digit(c) || c == '-' || c == '.'
}

pub open spec fn all_field_chars(s: Seq<char>) -> bool {
    forall|i: int| 0 <= i < s.len() ==> is_field_char(#[trigger] s[i])
}

/// Two records that give the same line: the same prime, kind and fields.
pub open spec fn same_record(a: Resonance, b: Resonance) -> bool {
    &&& a.prime == b.prime
    &&& a.is_match() == b.is_match()
    &&& fields_of(a) == fields_of(b)
}

proof fn lemma_labels(m: bool)
    ensures
        labels_of(m).len() == if m { 8int } else { 6int },
        labels_of(m)[0].len() > 0,
        labels_of(m)[0][0] == if m { 'M' } else { 'N' },
        forall|k: int|
            0 <= k < labels_of(m).len() ==> (#[trigger] labels_of(m)[k]).len() > 0
                && labels_of(m)[k].last() == ' ',
{
    reveal_strlit("MATCH: Prime: ");
    reveal_strlit("NEW ZETA ZERO: Prime: ");
    reveal_strlit(", Tangent: ");
    reveal_strlit(", Cosine: ");
    reveal_strlit(", Sine: ");
    reveal_strlit(", Angle: ");
    reveal_strlit(", Gamma: ");
    reveal_strlit(", Zeta Zero: ");
    reveal_strlit(", Difference: ");
}

proof fn lemma_fixed6_field_chars(s: Seq<char>)
    requires
        is_fixed6(s),
    ensures
        all_field_chars(s),
{
    let neg = s.len() > 0 && s[0] == '-';
    let body = if neg { s.drop_first() } else { s };
    assert(is_unsigned_fixed6(body));
    assert forall|i: int| 0 <= i < s.len() implies is_field_char(#[trigger] s[i]) by {
        if !(neg && i == 0) {
            let j = if neg { i - 1 } else { i };
            assert(s[i] == body[j]);
            if j != body.len() - 7 {
                assert(is_digit(body[j]));
            }
        }
    }
}

proof fn lemma_fields_are_field_chars(r: Resonance)
    requires
        r.wf(),
    ensures
        fields_of(r).len() == labels_of(r.is_match()).len(),
        forall|k: int| 0 <= k < fields_of(r).len() ==> all_field_chars(#[trigger] fields_of(r)[k]),
{
    lemma_decimal_digits(r.prime as nat);
    lemma_fixed6_field_chars(r.tangent@);
    lemma_fixed6_field_chars(r.cosine@);
    lemma_fixed6_field_chars(r.sine@);
    lemma_fixed6_field_chars(r.angle@);
    lemma_fixed6_field_chars(r.gamma@);
    if let Tag::Match { zero, difference } = r.tag {
        lemma_fixed6_field_chars(zero@);
        lemma_fixed6_field_chars(difference@);
    }
    lemma_labels(r.is_match());
    let fs = fields_of(r);
    assert(fs[0] == decimal(r.prime as nat));
    assert(fs[1] == r.tangent@);
    assert(fs[2] == r.cosine@);
    assert(fs[3] == r.sine@);
    assert(fs[4] == r.angle@);
    assert(fs[5] == r.gamma@);
    if let Tag::Match { zero, difference } = r.tag {
        assert(fs[6] == zero@);
        assert(fs[7] == difference@);
    }
    assert(all_field_chars(decimal(r.prime as nat))) by {
        assert forall|i: int| 0 <= i < decimal(r.prime as nat).len() implies is_field_char(
            #[trigger] decimal(r.prime as nat)[i],
        ) by {
            assert(is_digit(decimal(r.prime as nat)[i]));
        }
    }
}

proof fn lemma_interleave_first(labels: Seq<Seq<char>>, fields: Seq<Seq<char>>)
    requires
        labels.len() > 0,
        fields.len() == labels.len(),
        labels[0].len() > 0,
    ensures
        interleave(labels, fields).len() > 0,
        interleave(labels, fields)[0] == labels[0][0],
    decreases labels.len(),
{
    let head = interleave(labels.drop_last(), fields.drop_last());
    if labels.len() > 1 {
        lemma_interleave_first(labels.drop_last(), fields.drop_last());
        assert((head + labels.last() + fields.last())[0] == head[0]);
    } else {
        assert(head.len() == 0);
        assert((head + labels.last() + fields.last())[0] == labels.last()[0]);
    }
}

/// Where `s` reads `head`, `label` and then field `f` up to `pos`, and `st`
/// is the start of the run of field characters that ends at `pos`, that run
/// is `f` and `head` ends just before the label.
proof fn lemma_run_is_field(
    s: Seq<char>,
    pos: int,
    st: int,
    head: Seq<char>,
    label: Seq<char>,
    f: Seq<char>,
)
    requires
        0 <= st <= pos <= s.len(),
        s.subrange(0, pos) == head + label + f,
        label.len() > 0,
        !is_field_char(label.last()),
        all_field_chars(f),
        forall|i: int| st <= i < pos ==> is_field_char(#[trigger] s[i]),
        st == 0 || !is_field_char(s[st - 1]),
    ensures
        st == pos - f.len(),
        st >= label.len(),
        s.subrange(st, pos) == f,
        s.subrange(0, st - label.len()) == head,
{
    let p = head + label + f;
    assert(p.len() == pos);
    if st > pos - f.len() {
        assert(s[st - 1] == p[st - 1]);
        assert(p[st - 1] == f[st - 1 - head.len() - label.len()]);
    }
    if st < pos - f.len() {
        let i = pos - f.len() - 1;
        assert(s[i] == p[i]);
        assert(p[i] == label.last());
    }
    assert(s.subrange(st, pos) =~= f) by {
        assert forall|i: int| 0 <= i < f.len() implies s.subrange(st, pos)[i] == f[i] by {
            assert(s[st + i] == p[st + i]);
        }
    }
    assert(s.subrange(0, st - label.len()) =~= head) by {
        assert forall|i: int| 0 <= i < head.len() implies s.subrange(0, st - label.len())[i]
            == head[i] by {
            assert(s[i] == p[i]);
        }
    }
}

proof fn lemma_same_tail(p: Seq<char>, q: Seq<char>, label: Seq<char>, f: Seq<char>, g: Seq<char>)
    requires
        p + label + f == q + label + g,
        label.len() > 0,
        !is_field_char(label.last()),
        all_field_chars(f),
        all_field_chars(g),
    ensures
        f == g,
        p == q,
{
    let s = p + label + f;
    let t = q + label + g;
    if f.len() < g.len() {
        let i = s.len() - f.len() - 1;
        assert(s[i] == label.last());
        assert(t[i] == g[g.len() - f.len() - 1]);
    } else if g.len() < f.len() {
        let i = s.len() - g.len() - 1;
        assert(t[i] == label.last());
        assert(s[i] == f[f.len() - g.len() - 1]);
    }
    assert(f =~= s.subrange(s.len() - f.len(), s.len() as int));
    assert(g =~= t.subrange(t.len() - g.len(), t.len() as int));
    assert(p =~= s.subrange(0, p.len() as int));
    assert(q =~= t.subrange(0, q.len() as int));
}

proof fn lemma_interleave_injective(labels: Seq<Seq<char>>, f: Seq<Seq<char>>, g: Seq<Seq<char>>)
    requires
        f.len() == labels.len(),
        g.len() == labels.len(),
        forall|k: int|
            0 <= k < labels.len() ==> (#[trigger] labels[k]).len() > 0 && !is_field_char(
                labels[k].last(),
            ),
        forall|k: int| 0 <= k < f.len() ==> all_field_chars(#[trigger] f[k]),
        forall|k: int| 0 <= k < g.len() ==> all_field_chars(#[trigger] g[k]),
        interleave(labels, f) == interleave(labels, g),
    ensures
        f == g,
    decreases labels.len(),
{
    if labels.len() > 0 {
        let n = labels.len() - 1;
        assert(labels[n].len() > 0);
        assert(all_field_chars(f[n]) && all_field_chars(g[n]));
        lemma_same_tail(
            interleave(labels.drop_last(), f.drop_last()),
            interleave(labels.drop_last(), g.drop_last()),
            labels.last(),
            f.last(),
            g.last(),
        );
        assert forall|k: int| 0 <= k < n implies (#[trigger] labels.drop_last()[k]).len() > 0
            && !is_field_char(labels.drop_last()[k].last()) by {
            assert(labels.drop_last()[k] == labels[k]);
        }
        assert forall|k: int| 0 <= k < n implies all_field_chars(#[trigger] f.drop_last()[k]) by {
            assert(f.drop_last()[k] == f[k]);
        }
        assert forall|k: int| 0 <= k < n implies all_field_chars(#[trigger] g.drop_last()[k]) by {
            assert(g.drop_last()[k] == g[k]);
        }
        lemma_interleave_injective(labels.drop_last(), f.drop_last(), g.drop_last());
        assert(f =~= f.drop_last().push(f.last()));
        assert(g =~= g.drop_last().push(g.last()));
    }
}

/// A line names its record: two well-formed records that are written as the
/// same line have the same prime, the same kind and the same fields.
pub proof fn lemma_line_determines_record(a: Resonance, b: Resonance)
    requires
        a.wf(),
        b.wf(),
        line_text(a) == line_text(b),
    ensures
        same_record(a, b),
{
    lemma_labels(a.is_match());
    lemma_labels(b.is_match());
    lemma_fields_are_field_chars(a);
    lemma_fields_are_field_chars(b);
    lemma_interleave_first(labels_of(a.is_match()), fields_of(a));
    lemma_interleave_first(labels_of(b.is_match()), fields_of(b));
    assert(a.is_match() == b.is_match());
    lemma_interleave_injective(labels_of(a.is_match()), fields_of(a), fields_of(b));
    lemma_decimal_reads_back(a.prime as nat);
    lemma_decimal_reads_back(b.prime as nat);
    assert(decimal(a.prime as nat) == fields_of(a)[0]);
    assert(decimal(b.prime as nat) == fields_of(b)[0]);
}

fn field_char(c: char) -> (r: bool)
    ensures
        r == is_field_char(c),
{
    ('0' <= c && c <= '9') || c == '-' || c == '.'
}

/// Start of the run of field characters that ends at `pos`.
fn run_start(line: &str, pos: usize) -> (st: usize)
    requires
        pos <= line@.len(),
    ensures
        st <= pos,
        forall|i: int| st <= i < pos ==> is_field_char(#[trigger] line@[i]),
        st == 0 || !is_field_char(line@[st - 1]),
{
    let mut st = pos;
    let mut more = st > 0;
    while more
        invariant
            st <= pos <= line@.len(),
            forall|i: int| st <= i < pos ==> is_field_char(#[trigger] line@[i]),
            more ==> st > 0,
            !more ==> (st == 0 || !is_field_char(line@[st - 1])),
        decreases st + if more { 1int } else { 0int },
    {
        let c = line.get_char(st - 1);
        if field_char(c) {
            st = st - 1;
            more = st > 0;
        } else {
            more = false;
        }
    }
    st
}

/// Reads a line of the output back into the record it was written from.
/// Where no well-formed record is written as this line, the answer is `None`.
pub fn parse_line(line: &str) -> (r: Option<Resonance>)
    ensures
        r matches Some(x) ==> line_text(x) == line@,
        r matches Some(x) ==> forall|y: Resonance|
            y.wf() && #[trigger] line_text(y) == line@ ==> same_record(x, y),
        r is None ==> forall|y: Resonance| y.wf() ==> #[trigger] line_text(y) != line@,
{
    proof {
        assert forall|y: Resonance| y.wf() && #[trigger] line_text(y) == line@ implies line@.len() > 0
            && line@[0] == (if y.is_match() { 'M' } else { 'N' }) by {
            lemma_labels(y.is_match());
            lemma_fields_are_field_chars(y);
            lemma_interleave_first(labels_of(y.is_match()), fields_of(y));
        }
    }
    let n = line.unicode_len();
    if n == 0 {
        return None;
    }
    let c0 = line.get_char(0);
    let m = if c0 == 'M' {
        true
    } else if c0 == 'N' {
        false
    } else {
        return None;
    };
    let ls = labels(m);
    proof {
        lemma_labels(m);
    }
    let mut e: Vec<String> = Vec::new();
    while e.len() < ls.len()
        invariant
            e@.len() <= ls@.len(),
        decreases ls@.len() - e@.len(),
    {
        e.push(String::new());
    }
    let mut k: usize = ls.len();
    let mut pos: usize = n;
    proof {
        assert forall|y: Resonance| y.wf() && #[trigger] line_text(y) == line@ implies line@.subrange(
            0,
            pos as int,
        ) == interleave(labels_of(m).take(k as int), fields_of(y).take(k as int)) by {
            lemma_fields_are_field_chars(y);
            assert(labels_of(m).take(k as int) =~= labels_of(m));
            assert(fields_of(y).take(k as int) =~= fields_of(y));
            assert(line@.subrange(0, pos as int) =~= line@);
        }
    }
    while k > 0
        invariant
            k <= ls@.len() == e@.len() == labels_of(m).len(),
            pos <= n == line@.len(),
            forall|i: int| 0 <= i < ls@.len() ==> (#[trigger] ls@[i])@ == labels_of(m)[i],
            forall|i: int|
                0 <= i < labels_of(m).len() ==> (#[trigger] labels_of(m)[i]).len() > 0
                    && labels_of(m)[i].last() == ' ',
            forall|y: Resonance|
                y.wf() && #[trigger] line_text(y) == line@ ==> {
                    &&& y.is_match() == m
                    &&& line@.subrange(0, pos as int) == interleave(
                        labels_of(m).take(k as int),
                        fields_of(y).take(k as int),
                    )
                    &&& forall|j: int| k <= j < e@.len() ==> e@[j]@ == fields_of(y)[j]
                },
        decreases k,
    {
        let st = run_start(line, pos);
        let lw = ls[k - 1].unicode_len();
        proof {
            assert forall|y: Resonance| y.wf() && #[trigger] line_text(y) == line@ implies {
                &&& st >= lw
                &&& line@.subrange(st as int, pos as int) == fields_of(y)[k - 1]
                &&& line@.subrange(0, st - lw) == interleave(
                    labels_of(m).take(k - 1),
                    fields_of(y).take(k - 1),
                )
            } by {
                lemma_fields_are_field_chars(y);
                let l = labels_of(m).take(k as int);
                let f = fields_of(y).take(k as int);
                assert(l.drop_last() =~= labels_of(m).take(k - 1));
                assert(f.drop_last() =~= fields_of(y).take(k - 1));
                assert(l.last() == labels_of(m)[k - 1]);
                assert(f.last() == fields_of(y)[k - 1]);
                assert(all_field_chars(fields_of(y)[k - 1]));
                lemma_run_is_field(
                    line@,
                    pos as int,
                    st as int,
                    interleave(labels_of(m).take(k - 1), fields_of(y).take(k - 1)),
                    labels_of(m)[k - 1],
                    fields_of(y)[k - 1],
                );
            }
        }
        if st < lw {
            return None;
        }
        let field = String::from_str(line.substring_char(st, pos));
        e.set(k - 1, field);
        pos = st - lw;
        k = k - 1;
    }
    let prime = match parse_prime(e[0].as_str()) {
        Some(p) => p,
        None => {
            proof {
                assert forall|y: Resonance| y.wf() implies #[trigger] line_text(y) != line@ by {
                    if line_text(y) == line@ {
                        lemma_decimal_reads_back(y.prime as nat);
                        assert(fields_of(y)[0] == decimal(y.prime as nat));
                        assert(e@[0]@ == fields_of(y)[0]);
                    }
                }
            }
            return None;
        },
    };
    let tag = if m {
        Tag::Match { zero: e[6].clone(), difference: e[7].clone() }
    } else {
        Tag::NewCandidate
    };
    let x = Resonance {
        prime,
        tangent: e[1].clone(),
        cosine: e[2].clone(),
        sine: e[3].clone(),
        angle: e[4].clone(),
        gamma: e[5].clone(),
        tag,
    };
    proof {
        assert forall|y: Resonance| y.wf() && #[trigger] line_text(y) == line@ implies same_record(
            x,
            y,
        ) by {
            lemma_decimal_reads_back(y.prime as nat);
            lemma_fields_are_field_chars(y);
            let fy = fields_of(y);
            let fx = fields_of(x);
            assert(fy[0] == decimal(y.prime as nat));
            assert(e@[0]@ == fy[0]);
            assert(prime == y.prime);
            assert forall|j: int| 0 <= j < fy.len() implies fx[j] == fy[j] by {
                assert(e@[j]@ == fy[j]);
                if j == 0 {
                } else if j < 6 {
                    assert(fx[j] == e@[j]@);
                } else {
                    assert(y.tag is Match);
                    assert(fx[j] == e@[j]@);
                }
            }
            assert(fx =~= fy);
        }
    }
    let text = format_line(&x);
    if text == String::from_str(line) {
        Some(x)
    } else {
        proof {
            assert forall|y: Resonance| y.wf() implies #[trigger] line_text(y) != line@ by {
                if line_text(y) == line@ {
                    assert(same_record(x, y));
                }
            }
        }
        None
    }
}

} // verus!
