//! The transfer-list manifest: command kinds, block ranges, the range
//! parser and the line-oriented decoder, verified against a recursive
//! model of the manifest grammar.

use vstd::prelude::*;
use vstd::slice::slice_to_vec;
use crate::text::{
    SepKind, dec_value, is_dec, parse_usize, split_bytes, split_fields, tokenize_ws, views_of,
    ws_tokens,
};

verus! {

/// A command kind of the manifest. Only `New` consumes bytes from the
/// input stream; `Erase` and `Zero` are advisory.
#[derive(Clone, Copy, Debug, PartialEq, Eq, Structural)]
pub enum Command {
    Erase,
    New,
    Zero,
}

/// A half-open interval `[begin, end)` of block indices of the output
/// image.
#[derive(Clone, Copy, Debug, PartialEq, Eq, Structural)]
pub struct ByteSegments {
    pub begin: usize,
    pub end: usize,
}

impl ByteSegments {
    /// A valid range: non-empty, i.e. `end > begin`.
    pub open spec fn wf(self) -> bool {
        self.begin < self.end
    }

    /// The number of blocks the range covers.
    pub fn size(&self) -> (r: usize)
        requires
            self.wf(),
        ensures
            r == self.end - self.begin,
    {
        self.end - self.begin
    }
}

/// A fatal diagnostic of the decoder or the builder: a malformed manifest
/// or a truncated input stream. `fragment` holds the offending bytes of
/// the input — the unknown kind, the bad number, the malformed line —
/// and is empty where no fragment applies.
#[derive(Debug)]
pub struct TextFileError {
    pub message: String,
    pub fragment: Vec<u8>,
}

/// The mathematical content of a diagnostic: its text and the offending
/// input fragment.
pub struct ErrorModel {
    pub message: Seq<char>,
    pub fragment: Seq<u8>,
}

impl View for TextFileError {
    type V = ErrorModel;

    open spec fn view(&self) -> ErrorModel {
        ErrorModel { message: self.message@, fragment: self.fragment@ }
    }
}

impl TextFileError {
    /// A diagnostic with no offending fragment.
    pub fn new(message: &str) -> (r: TextFileError)
        ensures
            r@ == (ErrorModel { message: message@, fragment: Seq::<u8>::empty() }),
    {
        let r = TextFileError { message: message.to_owned(), fragment: Vec::new() };
        proof {
            assert(r.fragment@ =~= Seq::<u8>::empty());
        }
        r
    }

    /// A diagnostic naming the offending bytes of the input.
    pub fn with_fragment(message: &str, fragment: &[u8]) -> (r: TextFileError)
        ensures
            r@ == (ErrorModel { message: message@, fragment: fragment@ }),
    {
        TextFileError { message: message.to_owned(), fragment: slice_to_vec(fragment) }
    }

    /// The diagnostic text.
    pub fn message(&self) -> (r: &str)
        ensures
            r@ == self.message@,
    {
        self.message.as_str()
    }

    /// The offending bytes of the input, empty where none apply.
    pub fn fragment(&self) -> (r: &[u8])
        ensures
            r@ == self.fragment@,
    {
        self.fragment.as_slice()
    }
}

/// The mathematical content of a transfer list: the declared version and,
/// per command kind, the ranges in manifest order.
pub struct TransferModel {
    pub version: u32,
    pub erase: Seq<ByteSegments>,
    pub new: Seq<ByteSegments>,
    pub zero: Seq<ByteSegments>,
}

impl TransferModel {
    /// The model of a manifest with no command records yet.
    pub open spec fn empty(version: u32) -> TransferModel {
        TransferModel {
            version,
            erase: Seq::<ByteSegments>::empty(),
            new: Seq::<ByteSegments>::empty(),
            zero: Seq::<ByteSegments>::empty(),
        }
    }

    /// This model with `segs` appended under kind `k`.
    pub open spec fn with_segs(self, k: Command, segs: Seq<ByteSegments>) -> TransferModel {
        match k {
            Command::Erase => TransferModel { erase: self.erase + segs, ..self },
            Command::New => TransferModel { new: self.new + segs, ..self },
            Command::Zero => TransferModel { zero: self.zero + segs, ..self },
        }
    }

    /// Every range of every kind is a valid half-open interval.
    pub open spec fn wf(self) -> bool {
        &&& forall|i: int| 0 <= i < self.erase.len() ==> (#[trigger] self.erase[i]).wf()
        &&& forall|i: int| 0 <= i < self.new.len() ==> (#[trigger] self.new[i]).wf()
        &&& forall|i: int| 0 <= i < self.zero.len() ==> (#[trigger] self.zero[i]).wf()
    }
}

/// A decoded transfer list: the declared version and the ranges of each
/// command kind, in manifest order.
pub struct TransferList {
    pub version: u32,
    pub erase: Vec<ByteSegments>,
    pub new: Vec<ByteSegments>,
    pub zero: Vec<ByteSegments>,
}

impl View for TransferList {
    type V = TransferModel;

    open spec fn view(&self) -> TransferModel {
        TransferModel {
            version: self.version,
            erase: self.erase@,
            new: self.new@,
            zero: self.zero@,
        }
    }
}

/// The spelling of a command kind in the manifest.
pub open spec fn spec_kind_name(k: Command) -> Seq<u8> {
    match k {
        Command::Erase => seq![101u8, 114u8, 97u8, 115u8, 101u8],
        Command::New => seq![110u8, 101u8, 119u8],
        Command::Zero => seq![122u8, 101u8, 114u8, 111u8],
    }
}

/// The command kind named by `s`, if any: `erase`, `new` or `zero`.
pub open spec fn spec_kind(s: Seq<u8>) -> Option<Command> {
    if s == spec_kind_name(Command::Erase) {
        Some(Command::Erase)
    } else if s == spec_kind_name(Command::New) {
        Some(Command::New)
    } else if s == spec_kind_name(Command::Zero) {
        Some(Command::Zero)
    } else {
        None
    }
}

fn kind_name(k: Command) -> (r: Vec<u8>)
    ensures
        r@ == spec_kind_name(k),
{
    let mut p: Vec<u8> = Vec::new();
    match k {
        Command::Erase => {
            p.push(101);
            p.push(114);
            p.push(97);
            p.push(115);
            p.push(101);
            proof {
                assert(p@ =~= spec_kind_name(Command::Erase));
            }
        },
        Command::New => {
            p.push(110);
            p.push(101);
            p.push(119);
            proof {
                assert(p@ =~= spec_kind_name(Command::New));
            }
        },
        Command::Zero => {
            p.push(122);
            p.push(101);
            p.push(114);
            p.push(111);
            proof {
                assert(p@ =~= spec_kind_name(Command::Zero));
            }
        },
    }
    p
}

fn bytes_eq(a: &[u8], b: &[u8]) -> (r: bool)
    ensures
        r == (a@ == b@),
{
    if a.len() != b.len() {
        return false;
    }
    let mut i: usize = 0;
    while i < a.len()
        invariant
            0 <= i <= a@.len(),
            a@.len() == b@.len(),
            forall|j: int| 0 <= j < i ==> a@[j] == b@[j],
        decreases a@.len() - i,
    {
        if a[i] != b[i] {
            return false;
        }
        i = i + 1;
    }
    proof {
        assert(a@ =~= b@);
    }
    true
}

impl TransferList {
    /// Recognize a command name, exactly one of `erase`, `new`, `zero`;
    /// anything else is a format error naming the unknown kind.
    pub fn to_operations(command: &[u8]) -> (r: Result<Command, TextFileError>)
        ensures
            match r {
                Ok(k) => spec_kind(command@) == Some(k),
                Err(e) => spec_kind(command@) is None && e@ == (ErrorModel {
                    message: "Invalid operation"@,
                    fragment: command@,
                }),
            },
    {
        if bytes_eq(command, kind_name(Command::Erase).as_slice()) {
            Ok(Command::Erase)
        } else if bytes_eq(command, kind_name(Command::New).as_slice()) {
            Ok(Command::New)
        } else if bytes_eq(command, kind_name(Command::Zero).as_slice()) {
            Ok(Command::Zero)
        } else {
            Err(TextFileError::with_fragment("Invalid operation", command))
        }
    }
}

/// A field parses as a decimal number that fits in `usize`.
pub open spec fn good_field(t: Seq<u8>) -> bool {
    is_dec(t) && dec_value(t) <= usize::MAX
}

/// The index of the first field that does not parse, or the field count
/// when all do.
pub open spec fn first_bad_field(toks: Seq<Seq<u8>>) -> nat
    decreases toks.len(),
{
    if toks.len() == 0 {
        0
    } else if !good_field(toks[0]) {
        0
    } else {
        1 + first_bad_field(toks.drop_first())
    }
}

/// `first_bad_field` is what its name says: it lies past every good
/// prefix, and exactly at a bad field that follows one.
proof fn lemma_first_bad_field(toks: Seq<Seq<u8>>, i: int)
    requires
        0 <= i <= toks.len(),
        forall|j: int| #![trigger toks[j]] 0 <= j < i ==> good_field(toks[j]),
    ensures
        first_bad_field(toks) >= i,
        i < toks.len() && !good_field(toks[i]) ==> first_bad_field(toks) == i,
    decreases i,
{
    if i > 0 {
        let rest = toks.drop_first();
        assert(forall|j: int| 0 <= j < rest.len() ==> #[trigger] rest[j] == toks[j + 1]);
        lemma_first_bad_field(rest, i - 1);
    }
}

/// The flat integer list of a range token `N,v0,...,v(N-1)`: every
/// comma-separated field a decimal number that fits in `usize`, the count
/// prefix `N` equal to the number of values after it, and `N` even. A
/// rejection names its diagnostic and the offending fragment.
pub open spec fn spec_parse_ranges(s: Seq<u8>) -> Result<Seq<int>, ErrorModel> {
    let toks = split_fields(s, SepKind::Byte(44));
    if first_bad_field(toks) < toks.len() {
        Err(
            ErrorModel {
                message: "Invalid number in ranges"@,
                fragment: toks[first_bad_field(toks) as int],
            },
        )
    } else if toks.len() - 1 != dec_value(toks[0]) {
        Err(ErrorModel { message: "Range size mismatch"@, fragment: s })
    } else if (toks.len() - 1) % 2 != 0 {
        Err(ErrorModel { message: "Range length is not even"@, fragment: s })
    } else {
        Ok(Seq::new((toks.len() - 1) as nat, |i: int| dec_value(toks[i + 1]) as int))
    }
}

/// Parse a range token into its trailing integer list, validating the
/// count prefix and evenness. A rejection reports the offending fragment:
/// the bad field, or the whole token for a count or parity failure.
pub fn parse_ranges(src: &[u8]) -> (r: Result<Vec<usize>, TextFileError>)
    ensures
        match r {
            Ok(v) => spec_parse_ranges(src@) == Ok::<Seq<int>, ErrorModel>(
                v@.map_values(|x: usize| x as int),
            ),
            Err(e) => spec_parse_ranges(src@) == Err::<Seq<int>, ErrorModel>(e@),
        },
{
    let toks = split_bytes(src, SepKind::Byte(44));
    let ghost tv = views_of(toks@);
    let mut vals: Vec<usize> = Vec::new();
    let mut i: usize = 0;
    while i < toks.len()
        invariant
            0 <= i <= toks@.len(),
            tv == views_of(toks@),
            tv == split_fields(src@, SepKind::Byte(44)),
            vals@.len() == i,
            forall|j: int| #![trigger tv[j]]
                0 <= j < i ==> good_field(tv[j]) && vals@[j] == dec_value(tv[j]),
        decreases toks@.len() - i,
    {
        proof {
            assert(tv[i as int] == toks@[i as int]@);
        }
        match parse_usize(toks[i].as_slice()) {
            Some(v) => {
                vals.push(v);
            },
            None => {
                proof {
                    assert(!good_field(tv[i as int]));
                    lemma_first_bad_field(tv, i as int);
                }
                return Err(TextFileError::with_fragment(
                    "Invalid number in ranges",
                    toks[i].as_slice(),
                ));
            },
        }
        i = i + 1;
    }
    proof {
        assert(tv.len() == toks@.len());
        lemma_first_bad_field(tv, tv.len() as int);
        crate::text::lemma_split_fields_nonempty(src@, SepKind::Byte(44));
    }
    if vals.len() - 1 != vals[0] {
        return Err(TextFileError::with_fragment("Range size mismatch", src));
    }
    if (vals.len() - 1) % 2 != 0 {
        return Err(TextFileError::with_fragment("Range length is not even", src));
    }
    let mut out: Vec<usize> = Vec::new();
    let mut j: usize = 1;
    while j < vals.len()
        invariant
            1 <= j <= vals@.len(),
            out@ == vals@.subrange(1, j as int),
        decreases vals@.len() - j,
    {
        out.push(vals[j]);
        proof {
            assert(out@ =~= vals@.subrange(1, j + 1));
        }
        j = j + 1;
    }
    proof {
        let expected = Seq::new((tv.len() - 1) as nat, |i: int| dec_value(tv[i + 1]) as int);
        assert(out@.map_values(|x: usize| x as int) =~= expected);
    }
    Ok(out)
}

/// The ranges formed by consecutive pairs of `vals`: each pair `(a, b)`
/// must satisfy `a < b`; an odd tail or an invalid pair rejects the list.
pub open spec fn seg_pairs(vals: Seq<int>) -> Option<Seq<ByteSegments>>
    decreases vals.len(),
{
    if vals.len() == 0 {
        Some(Seq::<ByteSegments>::empty())
    } else if vals.len() == 1 {
        None
    } else if !(0 <= vals[0] && vals[0] < vals[1] && vals[1] <= usize::MAX) {
        None
    } else {
        match seg_pairs(vals.skip(2)) {
            Some(rest) => Some(
                seq![(ByteSegments { begin: vals[0] as usize, end: vals[1] as usize })] + rest,
            ),
            None => None,
        }
    }
}

/// Append to `segs` the ranges formed by the consecutive pairs of `vals`.
/// Returns false (leaving `segs` partially extended) exactly when some
/// pair is not an increasing interval.
fn append_pairs(segs: &mut Vec<ByteSegments>, vals: &Vec<usize>) -> (r: bool)
    requires
        vals@.len() % 2 == 0,
    ensures
        r == (seg_pairs(vals@.map_values(|x: usize| x as int)) is Some),
        r ==> final(segs)@ == old(segs)@ + seg_pairs(
            vals@.map_values(|x: usize| x as int),
        )->Some_0,
        r ==> forall|k: int|
            old(segs)@.len() <= k < final(segs)@.len() ==> (#[trigger] final(segs)@[k]).wf(),
    decreases vals@.len(),
{
    let ghost v = vals@.map_values(|x: usize| x as int);
    let ghost base = segs@.len() as int;
    let mut i: usize = 0;
    proof {
        assert(v.skip(0) =~= v);
        assert(segs@.skip(base) =~= Seq::<ByteSegments>::empty());
        if seg_pairs(v) is Some {
            assert(segs@.skip(base) + seg_pairs(v)->Some_0 =~= seg_pairs(v)->Some_0);
        }
        assert(segs@.subrange(0, base) =~= old(segs)@);
    }
    while i + 1 < vals.len()
        invariant
            v == vals@.map_values(|x: usize| x as int),
            vals@.len() % 2 == 0,
            i % 2 == 0,
            0 <= i <= vals@.len(),
            0 <= base <= segs@.len(),
            segs@.subrange(0, base) == old(segs)@,
            forall|k: int| base <= k < segs@.len() ==> (#[trigger] segs@[k]).wf(),
            ({
                let built = segs@.skip(base);
                match seg_pairs(v.skip(i as int)) {
                    Some(rest) => seg_pairs(v) == Some(built + rest),
                    None => seg_pairs(v) is None,
                }
            }),
        decreases vals@.len() - i,
    {
        let a = vals[i];
        let b = vals[i + 1];
        proof {
            assert(v.skip(i as int)[0] == v[i as int]);
            assert(v.skip(i as int)[1] == v[i + 1]);
            assert(v[i as int] == a as int);
            assert(v[i + 1] == b as int);
            assert(v.skip(i as int).len() >= 2);
            assert(v.skip(i as int).skip(2) =~= v.skip(i + 2));
        }
        if a >= b {
            proof {
                assert(seg_pairs(v.skip(i as int)) is None);
            }
            return false;
        }
        let ghost segs0 = segs@;
        segs.push(ByteSegments { begin: a, end: b });
        proof {
            assert(segs@ == segs0.push(ByteSegments { begin: a, end: b }));
            assert(segs@.subrange(0, base) =~= segs0.subrange(0, base));
            let built0 = segs0.skip(base);
            let built = segs@.skip(base);
            assert(built =~= built0.push(ByteSegments { begin: a, end: b }));
            match seg_pairs(v.skip(i + 2)) {
                Some(rest2) => {
                    assert(seg_pairs(v.skip(i as int)) == Some(
                        seq![(ByteSegments { begin: a, end: b })] + rest2,
                    ));
                    assert(built0 + (seq![(ByteSegments { begin: a, end: b })] + rest2) =~= built
                        + rest2);
                },
                None => {
                    assert(seg_pairs(v.skip(i as int)) is None);
                },
            }
        }
        i = i + 2;
    }
    proof {
        assert(i == vals@.len());
        assert(v.skip(i as int) =~= Seq::<int>::empty());
        assert(seg_pairs(v.skip(i as int)) == Some(Seq::<ByteSegments>::empty()));
        let built = segs@.skip(base);
        assert(built + Seq::<ByteSegments>::empty() =~= built);
        assert(old(segs)@ + segs@.skip(base) =~= segs@);
    }
    true
}

/// What a manifest's line list decodes to, given the command records in
/// `lines`: blank lines are skipped; every other line must be a recognized
/// kind and a valid range token, its pairs appended under that kind. A
/// rejection names its diagnostic and the offending fragment: the line,
/// the unknown kind, or the range token.
pub open spec fn decode_cmds(lines: Seq<Seq<u8>>, acc: TransferModel) -> Result<
    TransferModel,
    ErrorModel,
>
    decreases lines.len(),
{
    if lines.len() == 0 {
        Ok(acc)
    } else {
        let toks = ws_tokens(lines[0]);
        if toks.len() == 0 {
            decode_cmds(lines.drop_first(), acc)
        } else if toks.len() != 2 {
            Err(ErrorModel { message: "Invalid command format"@, fragment: lines[0] })
        } else {
            match spec_kind(toks[0]) {
                None => Err(ErrorModel { message: "Invalid operation"@, fragment: toks[0] }),
                Some(k) => match spec_parse_ranges(toks[1]) {
                    Err(e) => Err(e),
                    Ok(vals) => match seg_pairs(vals) {
                        None => Err(
                            ErrorModel { message: "Invalid range pair"@, fragment: toks[1] },
                        ),
                        Some(segs) => decode_cmds(lines.drop_first(), acc.with_segs(k, segs)),
                    },
                },
            }
        }
    }
}

/// What a whole manifest decodes to: the first line must hold exactly one
/// token, a version in 1..=4; one further header line (three if the
/// version is 2 or more) is consumed unread; the rest are command records.
pub open spec fn spec_decode(data: Seq<u8>) -> Result<TransferModel, ErrorModel> {
    let lines = split_fields(data, SepKind::Byte(10));
    let vtoks = ws_tokens(lines[0]);
    if vtoks.len() != 1 {
        Err(ErrorModel { message: "Failed to read version"@, fragment: lines[0] })
    } else if !good_field(vtoks[0]) {
        Err(ErrorModel { message: "Failed to read version"@, fragment: vtoks[0] })
    } else if !(1 <= dec_value(vtoks[0]) && dec_value(vtoks[0]) <= 4) {
        Err(ErrorModel { message: "Unsupported version"@, fragment: vtoks[0] })
    } else {
        let v = dec_value(vtoks[0]) as u32;
        let hdr: int = if v >= 2 {
            4
        } else {
            2
        };
        let start: int = if hdr <= lines.len() {
            hdr
        } else {
            lines.len() as int
        };
        decode_cmds(lines.skip(start), TransferModel::empty(v))
    }
}

fn segs_well_formed(segs: &Vec<ByteSegments>) -> (r: bool)
    ensures
        r == (forall|i: int| 0 <= i < segs@.len() ==> (#[trigger] segs@[i]).wf()),
{
    let mut i: usize = 0;
    while i < segs.len()
        invariant
            0 <= i <= segs@.len(),
            forall|j: int| 0 <= j < i ==> (#[trigger] segs@[j]).wf(),
        decreases segs@.len() - i,
    {
        if segs[i].begin >= segs[i].end {
            return false;
        }
        i = i + 1;
    }
    true
}

impl TransferList {
    /// Whether every range of every kind is a valid half-open interval.
    /// `parse` only returns such lists; a caller that assembles one by
    /// hand can check it here.
    pub fn well_formed(&self) -> (r: bool)
        ensures
            r == self@.wf(),
    {
        let a = segs_well_formed(&self.erase);
        let b = segs_well_formed(&self.new);
        let c = segs_well_formed(&self.zero);
        proof {
            assert(self@.erase == self.erase@);
            assert(self@.new == self.new@);
            assert(self@.zero == self.zero@);
        }
        a && b && c
    }
}

impl TransferList {
    /// Decode a manifest. On success the result is exactly the model the
    /// grammar assigns to `data`, and every range of every kind is a valid
    /// half-open interval; a rejection carries exactly the diagnostic and
    /// offending fragment the grammar assigns.
    pub fn parse(data: &[u8]) -> (r: Result<TransferList, TextFileError>)
        ensures
            match r {
                Ok(tl) => spec_decode(data@) == Ok::<TransferModel, ErrorModel>(tl@) && tl@.wf(),
                Err(e) => spec_decode(data@) == Err::<TransferModel, ErrorModel>(e@),
            },
    {
        let lines = split_bytes(data, SepKind::Byte(10));
        let ghost lv = views_of(lines@);
        proof {
            crate::text::lemma_split_fields_nonempty(data@, SepKind::Byte(10));
            assert(lv.len() == lines@.len());
            assert(lv[0] == lines@[0]@);
        }
        let vtoks = tokenize_ws(lines[0].as_slice());
        if vtoks.len() != 1 {
            return Err(TextFileError::with_fragment("Failed to read version", lines[0].as_slice()));
        }
        proof {
            assert(views_of(vtoks@)[0] == vtoks@[0]@);
        }
        let v = match parse_usize(vtoks[0].as_slice()) {
            Some(v) => v,
            None => {
                proof {
                    assert(usize::MAX >= 4);
                }
                return Err(
                    TextFileError::with_fragment("Failed to read version", vtoks[0].as_slice()),
                );
            },
        };
        if v < 1 || v > 4 {
            return Err(TextFileError::with_fragment("Unsupported version", vtoks[0].as_slice()));
        }
        let version: u32 = v as u32;
        let hdr: usize = if version >= 2 {
            4
        } else {
            2
        };
        let start: usize = if hdr <= lines.len() {
            hdr
        } else {
            lines.len()
        };
        let mut erase: Vec<ByteSegments> = Vec::new();
        let mut new: Vec<ByteSegments> = Vec::new();
        let mut zero: Vec<ByteSegments> = Vec::new();
        let mut i: usize = start;
        proof {
            let acc = TransferModel::empty(version);
            assert(acc.erase =~= erase@);
            assert(acc.new =~= new@);
            assert(acc.zero =~= zero@);
            assert(spec_decode(data@) == decode_cmds(lv.skip(start as int), acc));
        }
        while i < lines.len()
            invariant
                start <= i <= lines@.len(),
                lv == views_of(lines@),
                lv == split_fields(data@, SepKind::Byte(10)),
                forall|k: int| 0 <= k < erase@.len() ==> (#[trigger] erase@[k]).wf(),
                forall|k: int| 0 <= k < new@.len() ==> (#[trigger] new@[k]).wf(),
                forall|k: int| 0 <= k < zero@.len() ==> (#[trigger] zero@[k]).wf(),
                spec_decode(data@) == decode_cmds(
                    lv.skip(i as int),
                    (TransferModel { version, erase: erase@, new: new@, zero: zero@ }),
                ),
            decreases lines@.len() - i,
        {
            let ghost acc = TransferModel { version, erase: erase@, new: new@, zero: zero@ };
            proof {
                assert(lv.skip(i as int)[0] == lv[i as int]);
                assert(lv[i as int] == lines@[i as int]@);
                assert(lv.skip(i as int).drop_first() =~= lv.skip(i + 1));
            }
            let toks = tokenize_ws(lines[i].as_slice());
            if toks.len() != 0 {
                if toks.len() != 2 {
                    return Err(
                        TextFileError::with_fragment("Invalid command format", lines[i].as_slice()),
                    );
                }
                proof {
                    assert(views_of(toks@)[0] == toks@[0]@);
                    assert(views_of(toks@)[1] == toks@[1]@);
                }
                let kind = match Self::to_operations(toks[0].as_slice()) {
                    Ok(k) => k,
                    Err(e) => {
                        return Err(e);
                    },
                };
                let vals = match parse_ranges(toks[1].as_slice()) {
                    Ok(vs) => vs,
                    Err(e) => {
                        return Err(e);
                    },
                };
                let ghost vints = vals@.map_values(|x: usize| x as int);
                proof {
                    assert(spec_parse_ranges(toks@[1]@) == Ok::<Seq<int>, ErrorModel>(vints));
                    assert(vints.len() % 2 == 0) by {
                        let tv2 = split_fields(toks@[1]@, SepKind::Byte(44));
                        assert(vints.len() == tv2.len() - 1);
                    }
                    assert(vals@.len() % 2 == 0);
                }
                let ok: bool = match kind {
                    Command::Erase => append_pairs(&mut erase, &vals),
                    Command::New => append_pairs(&mut new, &vals),
                    Command::Zero => append_pairs(&mut zero, &vals),
                };
                if !ok {
                    return Err(
                        TextFileError::with_fragment("Invalid range pair", toks[1].as_slice()),
                    );
                }
                proof {
                    let segs = seg_pairs(vints)->Some_0;
                    let acc2 = TransferModel { version, erase: erase@, new: new@, zero: zero@ };
                    assert(acc2 == acc.with_segs(kind, segs));
                    assert(decode_cmds(lv.skip(i as int), acc) == decode_cmds(
                        lv.skip(i + 1),
                        acc2,
                    ));
                }
            }
            i = i + 1;
        }
        proof {
            assert(lv.skip(i as int) =~= Seq::<Seq<u8>>::empty());
        }
        Ok(TransferList { version, erase, new, zero })
    }
}

} // verus!
