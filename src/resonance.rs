use vstd::prelude::*;
use crate::text::{decimal, decimal_text, is_digit};

verus! {

/// How a prime was classified.
pub enum Verdict {
    Match,
    NewCandidate,
}

/// Classifies a prime from what was found about it: whether its tangent lies
/// within the tolerance of its catalog zero, whether its angles fall in the
/// window of a possible new zero, and whether the validator confirmed it.
/// A match wins over everything else; a prime with neither gives no record.
pub fn classify(matched: bool, in_window: bool, confirmed: bool) -> (r: Option<Verdict>)
    ensures
        r matches Some(Verdict::Match) <==> matched,
        r matches Some(Verdict::NewCandidate) <==> !matched && in_window && confirmed,
        r is None <==> !matched && !(in_window && confirmed),
{
    if matched {
        Some(Verdict::Match)
    } else if in_window && confirmed {
        Some(Verdict::NewCandidate)
    } else {
        None
    }
}

/// Whether the validator has to be asked about a prime: only where there is
/// no match and the angles fall in the window.
pub fn needs_validation(matched: bool, in_window: bool) -> (r: bool)
    ensures
        r == (!matched && in_window),
{
    !matched && in_window
}

/// Digits, a point and exactly six digits.
pub open spec fn is_unsigned_fixed6(b: Seq<char>) -> bool {
    &&& b.len() >= 8
    &&& b[b.len() - 7] == '.'
    &&& forall|i: int| 0 <= i < b.len() && i != b.len() - 7 ==> is_digit(#[trigger] b[i])
}

/// A real number written with exactly six decimal places: an optional `-`,
/// one or more digits, a point and six digits.
pub open spec fn is_fixed6(s: Seq<char>) -> bool {
    if s.len() > 0 && s[0] == '-' {
        is_unsigned_fixed6(s.drop_first())
    } else {
        is_unsigned_fixed6(s)
    }
}

/// Which kind of record, with the fields only a match has.
pub enum Tag {
    Match { zero: String, difference: String },
    NewCandidate,
}

/// A classified prime, its real quantities written to six decimal places.
pub struct Resonance {
    pub prime: u64,
    pub tangent: String,
    pub cosine: String,
    pub sine: String,
    pub angle: String,
    pub gamma: String,
    pub tag: Tag,
}

impl Resonance {
    /// Every real quantity is written with six decimal places.
    pub open spec fn wf(&self) -> bool {
        &&& is_fixed6(self.tangent@)
        &&& is_fixed6(self.cosine@)
        &&& is_fixed6(self.sine@)
        &&& is_fixed6(self.angle@)
        &&& is_fixed6(self.gamma@)
        &&& (self.tag matches Tag::Match { zero, difference } ==> is_fixed6(zero@)
            && is_fixed6(difference@))
    }

    pub open spec fn is_match(&self) -> bool {
        self.tag is Match
    }

    pub open spec fn is_new_candidate(&self) -> bool {
        self.tag is NewCandidate
    }

    /// Whether the record is a match.
    pub fn matched(&self) -> (r: bool)
        ensures
            r == self.is_match(),
    {
        match self.tag {
            Tag::Match { .. } => true,
            Tag::NewCandidate => false,
        }
    }
}

/// A record is a match or a new candidate, never both and never neither.
pub proof fn lemma_one_kind(r: Resonance)
    ensures
        r.is_match() != r.is_new_candidate(),
{
}

/// The labels of a line, each standing before one field.
pub open spec fn labels_of(is_match: bool) -> Seq<Seq<char>> {
    let head = seq![
        if is_match {
            "MATCH: Prime: "@
        } else {
            "NEW ZETA ZERO: Prime: "@
        },
        ", Tangent: "@,
        ", Cosine: "@,
        ", Sine: "@,
        ", Angle: "@,
        ", Gamma: "@,
    ];
    if is_match {
        head + seq![", Zeta Zero: "@, ", Difference: "@]
    } else {
        head
    }
}

/// The fields of a record's line, in order.
pub open spec fn fields_of(r: Resonance) -> Seq<Seq<char>> {
    let head = seq![
        decimal(r.prime as nat),
        r.tangent@,
        r.cosine@,
        r.sine@,
        r.angle@,
        r.gamma@,
    ];
    match r.tag {
        Tag::Match { zero, difference } => head + seq![zero@, difference@],
        Tag::NewCandidate => head,
    }
}

/// Each label followed by its field, all in a row.
pub open spec fn interleave(labels: Seq<Seq<char>>, fields: Seq<Seq<char>>) -> Seq<char>
    decreases labels.len(),
{
    if labels.len() == 0 || fields.len() == 0 {
        Seq::empty()
    } else {
        interleave(labels.drop_last(), fields.drop_last()) + labels.last() + fields.last()
    }
}

/// The line that records `r`, without its line break.
pub open spec fn line_text(r: Resonance) -> Seq<char> {
    interleave(labels_of(r.is_match()), fields_of(r))
}

/// The lines of a batch, each ended by a line break.
pub open spec fn batch_text(batch: Seq<Resonance>) -> Seq<char>
    decreases batch.len(),
{
    if batch.len() == 0 {
        Seq::empty()
    } else {
        batch_text(batch.drop_last()) + line_text(batch.last()) + seq!['\n']
    }
}

pub(crate) fn labels(is_match: bool) -> (r: Vec<&'static str>)
    ensures
        r@.len() == labels_of(is_match).len(),
        forall|i: int| 0 <= i < r@.len() ==> (#[trigger] r@[i])@ == labels_of(is_match)[i],
{
    let first = if is_match {
        "MATCH: Prime: "
    } else {
        "NEW ZETA ZERO: Prime: "
    };
    let mut r = vec![first, ", Tangent: ", ", Cosine: ", ", Sine: ", ", Angle: ", ", Gamma: "];
    if is_match {
        r.push(", Zeta Zero: ");
        r.push(", Difference: ");
    }
    r
}

fn fields(r: &Resonance) -> (f: Vec<String>)
    ensures
        f@.len() == fields_of(*r).len(),
        forall|i: int| 0 <= i < f@.len() ==> (#[trigger] f@[i])@ == fields_of(*r)[i],
{
    let mut f = vec![
        decimal_text(r.prime),
        r.tangent.clone(),
        r.cosine.clone(),
        r.sine.clone(),
        r.angle.clone(),
        r.gamma.clone(),
    ];
    match &r.tag {
        Tag::Match { zero, difference } => {
            f.push(zero.clone());
            f.push(difference.clone());
        },
        Tag::NewCandidate => {},
    }
    f
}

/// Writes the line that records `r`, without its line break.
pub fn format_line(r: &Resonance) -> (s: String)
    ensures
        s@ == line_text(*r),
{
    let m = r.matched();
    let ls = labels(m);
    let fs = fields(r);
    let mut s = String::new();
    let mut k: usize = 0;
    while k < ls.len()
        invariant
            k <= ls@.len() == fs@.len() == labels_of(m).len(),
            m == r.is_match(),
            forall|i: int| 0 <= i < ls@.len() ==> (#[trigger] ls@[i])@ == labels_of(m)[i],
            forall|i: int| 0 <= i < fs@.len() ==> (#[trigger] fs@[i])@ == fields_of(*r)[i],
            s@ == interleave(labels_of(m).take(k as int), fields_of(*r).take(k as int)),
        decreases ls@.len() - k,
    {
        s.append(ls[k]);
        s.append(fs[k].as_str());
        proof {
            let l = labels_of(m).take(k + 1);
            let f = fields_of(*r).take(k + 1);
            assert(l.drop_last() =~= labels_of(m).take(k as int));
            assert(f.drop_last() =~= fields_of(*r).take(k as int));
        }
        k = k + 1;
    }
    proof {
        assert(labels_of(m).take(k as int) =~= labels_of(m));
        assert(fields_of(*r).take(k as int) =~= fields_of(*r));
    }
    s
}

/// Writes the lines of a batch, each ended by a line break, as one text so
/// that it can be appended to the output in a single piece.
pub fn render_batch(batch: &Vec<Resonance>) -> (s: String)
    ensures
        s@ == batch_text(batch@),
{
    let mut s = String::new();
    let mut k: usize = 0;
    while k < batch.len()
        invariant
            k <= batch@.len(),
            s@ == batch_text(batch@.take(k as int)),
        decreases batch@.len() - k,
    {
        let line = format_line(&batch[k]);
        s.append(line.as_str());
        s.append("\n");
        proof {
            reveal_strlit("\n");
            assert(batch@.take(k + 1).drop_last() =~= batch@.take(k as int));
        }
        k = k + 1;
    }
    proof {
        assert(batch@.take(k as int) =~= batch@);
    }
    s
}

} // verus!
