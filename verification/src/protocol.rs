//! The scan report wire protocol.
//!
//! A report is one text message whose first byte selects its kind:
//! `'0'` acknowledges the last command, `'1'` carries a failure text,
//! and `'2'` carries a scan: a bracketed, comma-separated dictionary of
//! quoted block names followed back-to-back by a bracketed,
//! comma-separated list of exactly `width³` slots, one per scan index
//! (`0` = air, `v > 0` = 1-based dictionary reference). Any other first
//! byte is only a warning. A malformed scan — missing brackets or
//! boundary, a non-numeric slot, a slot count other than `width³`, a
//! dangling dictionary reference — rejects the whole report and leaves
//! the grid untouched.

use vstd::prelude::*;
use vstd::arithmetic::div_mod::lemma_fundamental_div_mod;
use vstd::seq_lib::lemma_concat_associative;
use vstd::slice::slice_to_vec;
use crate::color::{block_color, color_of};
use crate::objects::{Block, Identity, Rgb, cube_volume, volume};
use crate::renderer::Renderer;

verus! {

/// `'0'`: the last command succeeded.
pub const KIND_ACK: u8 = 48;

/// `'1'`: the last command failed; the rest is the error text.
pub const KIND_FAILED: u8 = 49;

/// `'2'`: a scan report follows.
pub const KIND_SCAN: u8 = 50;

/// `'"'`
pub const QUOTE: u8 = 34;

/// `','`
pub const COMMA: u8 = 44;

/// `'['`
pub const OPEN_BRACKET: u8 = 91;

/// `']'`
pub const CLOSE_BRACKET: u8 = 93;

/// `'0'`
pub const DIGIT_ZERO: u8 = 48;

/// `'9'`
pub const DIGIT_NINE: u8 = 57;

/// The first position at or after `k` holding byte `b`.
pub open spec fn find_from(s: Seq<u8>, b: u8, k: int) -> Option<int>
    decreases s.len() - k,
{
    if k < 0 || k >= s.len() {
        None
    } else if s[k] == b {
        Some(k)
    } else {
        find_from(s, b, k + 1)
    }
}

/// The first position at or after `k` where `"]["` — the boundary
/// between the two bracketed lists — begins.
pub open spec fn find_boundary_from(s: Seq<u8>, k: int) -> Option<int>
    decreases s.len() - k,
{
    if k < 0 || k + 1 >= s.len() {
        None
    } else if s[k] == CLOSE_BRACKET && s[k + 1] == OPEN_BRACKET {
        Some(k)
    } else {
        find_boundary_from(s, k + 1)
    }
}

pub proof fn lemma_find_from_props(s: Seq<u8>, b: u8, k: int)
    requires
        0 <= k <= s.len(),
    ensures
        match find_from(s, b, k) {
            None => forall|i: int| k <= i < s.len() ==> s[i] != b,
            Some(i) => k <= i < s.len() && s[i] == b && (forall|j: int| k <= j < i ==> s[j] != b),
        },
    decreases s.len() - k,
{
    if k < s.len() && s[k] != b {
        lemma_find_from_props(s, b, k + 1);
    }
}

pub proof fn lemma_find_boundary_props(s: Seq<u8>, k: int)
    requires
        0 <= k <= s.len(),
    ensures
        match find_boundary_from(s, k) {
            None => forall|i: int|
                k <= i < s.len() - 1 ==> !(#[trigger] s[i] == CLOSE_BRACKET && s[i + 1]
                    == OPEN_BRACKET),
            Some(i) => k <= i < s.len() - 1 && s[i] == CLOSE_BRACKET && s[i + 1] == OPEN_BRACKET
                && (forall|j: int|
                k <= j < i ==> !(#[trigger] s[j] == CLOSE_BRACKET && s[j + 1] == OPEN_BRACKET)),
        },
    decreases s.len() - k,
{
    if k + 1 < s.len() && !(s[k] == CLOSE_BRACKET && s[k + 1] == OPEN_BRACKET) {
        lemma_find_boundary_props(s, k + 1);
    }
}

/// The comma-separated pieces of `s` from position `k` on. Splitting an
/// empty stretch yields one empty piece.
pub open spec fn split_commas_from(s: Seq<u8>, k: int) -> Seq<Seq<u8>>
    decreases s.len() - k,
    when 0 <= k <= s.len()
    via split_commas_from_decreases
{
    match find_from(s, COMMA, k) {
        None => seq![s.subrange(k, s.len() as int)],
        Some(i) => seq![s.subrange(k, i)] + split_commas_from(s, i + 1),
    }
}

#[via_fn]
proof fn split_commas_from_decreases(s: Seq<u8>, k: int) {
    lemma_find_from_props(s, COMMA, k);
}

/// All comma-separated pieces of `s`.
pub open spec fn split_commas(s: Seq<u8>) -> Seq<Seq<u8>> {
    split_commas_from(s, 0)
}

/// `s` with every leading and trailing quote byte removed.
pub open spec fn strip_quotes(s: Seq<u8>) -> Seq<u8>
    decreases s.len(),
{
    if s.len() > 0 && s[0] == QUOTE {
        strip_quotes(s.drop_first())
    } else if s.len() > 0 && s.last() == QUOTE {
        strip_quotes(s.drop_last())
    } else {
        s
    }
}

/// Whether `b` is an ASCII decimal digit.
pub open spec fn is_digit(b: u8) -> bool {
    DIGIT_ZERO <= b <= DIGIT_NINE
}

pub open spec fn all_digits(s: Seq<u8>) -> bool {
    forall|i: int| 0 <= i < s.len() ==> is_digit(#[trigger] s[i])
}

/// The value of a digit string, most significant digit first.
pub open spec fn digits_val(s: Seq<u8>) -> int
    decreases s.len(),
{
    if s.len() == 0 {
        0
    } else {
        digits_val(s.drop_last()) * 10 + (s.last() - DIGIT_ZERO)
    }
}

/// A slot entry parses exactly when it is a non-empty, all-digit string
/// whose value fits a `u16`.
pub open spec fn parse_u16(s: Seq<u8>) -> Option<u16> {
    if s.len() > 0 && all_digits(s) && digits_val(s) <= 0xFFFF {
        Some(digits_val(s) as u16)
    } else {
        None
    }
}

/// The decoded name dictionary: each comma-separated entry with its
/// surrounding quotes removed.
pub open spec fn parse_names(s: Seq<u8>) -> Seq<Seq<u8>> {
    split_commas(s).map_values(|p: Seq<u8>| strip_quotes(p))
}

/// The decoded slot list, or `None` when any entry fails to parse.
pub open spec fn parse_slots(s: Seq<u8>) -> Option<Seq<u16>> {
    let pieces = split_commas(s);
    if forall|i: int| 0 <= i < pieces.len() ==> parse_u16(#[trigger] pieces[i]) is Some {
        Some(Seq::new(pieces.len(), |i: int| parse_u16(pieces[i]).unwrap()))
    } else {
        None
    }
}

proof fn lemma_digits_val_nonneg(s: Seq<u8>)
    requires
        all_digits(s),
    ensures
        digits_val(s) >= 0,
    decreases s.len(),
{
    if s.len() > 0 {
        assert(all_digits(s.drop_last()));
        lemma_digits_val_nonneg(s.drop_last());
    }
}

/// A digit-string prefix never exceeds the whole string's value.
proof fn lemma_digits_val_prefix_le(s: Seq<u8>, m: int)
    requires
        all_digits(s),
        0 <= m <= s.len(),
    ensures
        digits_val(s.subrange(0, m)) <= digits_val(s),
    decreases s.len() - m,
{
    if m < s.len() {
        lemma_digits_val_prefix_le(s, m + 1);
        let shorter = s.subrange(0, m);
        let longer = s.subrange(0, m + 1);
        assert(longer.drop_last() =~= shorter);
        assert(all_digits(shorter));
        lemma_digits_val_nonneg(shorter);
        assert(digits_val(longer) == digits_val(shorter) * 10 + (longer.last() - DIGIT_ZERO));
        assert(digits_val(shorter) * 10 >= digits_val(shorter)) by (nonlinear_arith)
            requires digits_val(shorter) >= 0;
    } else {
        assert(s.subrange(0, m) =~= s);
    }
}

/// First comma at or after `from`.
fn find_comma(s: &[u8], from: usize) -> (r: Option<usize>)
    requires
        from <= s@.len(),
    ensures
        match r {
            None => find_from(s@, COMMA, from as int) is None,
            Some(i) => from <= i < s@.len() && find_from(s@, COMMA, from as int) == Some(i as int),
        },
{
    let mut k = from;
    while k < s.len()
        invariant
            from <= k <= s@.len(),
            find_from(s@, COMMA, from as int) == find_from(s@, COMMA, k as int),
        decreases s@.len() - k,
    {
        if s[k] == COMMA {
            return Some(k);
        }
        k = k + 1;
    }
    None
}

/// First `"]["` boundary at or after `from`.
fn find_boundary(s: &[u8], from: usize) -> (r: Option<usize>)
    requires
        from <= s@.len(),
    ensures
        match r {
            None => find_boundary_from(s@, from as int) is None,
            Some(i) => from <= i && i + 1 < s@.len() && find_boundary_from(s@, from as int)
                == Some(i as int),
        },
{
    let mut k = from;
    while k < s.len() && k + 1 < s.len()
        invariant
            from <= k,
            k <= s@.len(),
            find_boundary_from(s@, from as int) == find_boundary_from(s@, k as int),
        decreases s@.len() - k,
    {
        if s[k] == CLOSE_BRACKET && s[k + 1] == OPEN_BRACKET {
            return Some(k);
        }
        k = k + 1;
    }
    None
}

/// Remove every leading and trailing quote byte.
fn strip_quotes_exec(s: &[u8]) -> (r: Vec<u8>)
    ensures
        r@ == strip_quotes(s@),
{
    let mut a: usize = 0;
    let mut b: usize = s.len();
    proof {
        assert(s@.subrange(0, s@.len() as int) =~= s@);
    }
    while a < b && (s[a] == QUOTE || s[b - 1] == QUOTE)
        invariant
            a <= b <= s@.len(),
            strip_quotes(s@) == strip_quotes(s@.subrange(a as int, b as int)),
        decreases b - a,
    {
        if s[a] == QUOTE {
            proof {
                assert(s@.subrange(a as int, b as int).drop_first() =~= s@.subrange(
                    a as int + 1,
                    b as int,
                ));
            }
            a = a + 1;
        } else {
            proof {
                assert(s@.subrange(a as int, b as int).drop_last() =~= s@.subrange(
                    a as int,
                    b as int - 1,
                ));
            }
            b = b - 1;
        }
    }
    slice_to_vec(&s[a..b])
}

/// Parse one slot entry as an unsigned 16-bit decimal number.
fn parse_u16_exec(s: &[u8]) -> (r: Option<u16>)
    ensures
        r == parse_u16(s@),
{
    if s.len() == 0 {
        return None;
    }
    let mut acc: u32 = 0;
    let mut k: usize = 0;
    while k < s.len()
        invariant
            k <= s@.len(),
            s@.len() > 0,
            acc <= 0xFFFF,
            all_digits(s@.subrange(0, k as int)),
            acc as int == digits_val(s@.subrange(0, k as int)),
        decreases s@.len() - k,
    {
        let c = s[k];
        if c < DIGIT_ZERO || c > DIGIT_NINE {
            assert(!is_digit(s@[k as int]));
            return None;
        }
        proof {
            let shorter = s@.subrange(0, k as int);
            let longer = s@.subrange(0, k as int + 1);
            assert(longer.drop_last() =~= shorter);
            assert(forall|i: int| 0 <= i < longer.len() ==> is_digit(#[trigger] longer[i]));
        }
        acc = acc * 10 + (c - DIGIT_ZERO) as u32;
        if acc > 0xFFFF {
            proof {
                if all_digits(s@) {
                    lemma_digits_val_prefix_le(s@, k as int + 1);
                }
            }
            return None;
        }
        k = k + 1;
    }
    proof {
        assert(s@.subrange(0, s@.len() as int) =~= s@);
    }
    Some(acc as u16)
}

/// What a decoded report means. The grid effect of the `Scan` case
/// still depends on the session's width; see [`report_outcome`].
pub enum ReportSpec {
    Ack,
    Failed(Seq<u8>),
    Scan(Seq<Seq<u8>>, Seq<u16>),
    Other(u8),
}

/// What handling a report tells the caller.
#[derive(Clone, PartialEq, Eq, Debug)]
pub enum Outcome {
    /// The last command succeeded; no grid effect.
    Ack,
    /// The last command failed, with the agent's error text; no grid
    /// effect.
    CommandFailed(Vec<u8>),
    /// A scan report was decoded and the grid fully overwritten.
    ScanApplied,
    /// An unknown discriminator byte: a warning, no grid effect.
    Unknown(u8),
}

/// Why a report was rejected; the grid is never touched on an error.
#[derive(Clone, Copy, PartialEq, Eq, Structural, Debug)]
pub enum ProtocolError {
    /// The message was empty.
    Empty,
    /// A scan report without its brackets or list boundary.
    Malformed,
    /// A slot entry that is not an unsigned decimal number in range.
    NonNumericSlot,
    /// The slot count differs from the session's `width³`: the scanning
    /// agent and the viewer disagree about the scan radius.
    CountMismatch,
    /// A slot refers past the end of the name dictionary.
    DanglingReference,
}

/// Split a scan body into its two bracketed sections: the name
/// dictionary and the slot list. The body must start with `[`, end with
/// `]` and contain the `][` boundary; the split is at the first
/// boundary.
pub open spec fn scan_body_parts(body: Seq<u8>) -> Option<(Seq<u8>, Seq<u8>)> {
    if body.len() >= 2 && body[0] == OPEN_BRACKET && body[body.len() - 1] == CLOSE_BRACKET {
        match find_boundary_from(body, 0) {
            Some(i) => Some((body.subrange(1, i), body.subrange(i + 2, body.len() - 1))),
            None => None,
        }
    } else {
        None
    }
}

/// Decode one wire message, independent of the session's width.
pub open spec fn parse_report(msg: Seq<u8>) -> Result<ReportSpec, ProtocolError> {
    if msg.len() == 0 {
        Err(ProtocolError::Empty)
    } else if msg[0] == KIND_ACK {
        Ok(ReportSpec::Ack)
    } else if msg[0] == KIND_FAILED {
        Ok(ReportSpec::Failed(msg.subrange(1, msg.len() as int)))
    } else if msg[0] == KIND_SCAN {
        match scan_body_parts(msg.subrange(1, msg.len() as int)) {
            None => Err(ProtocolError::Malformed),
            Some((nsec, ssec)) => match parse_slots(ssec) {
                None => Err(ProtocolError::NonNumericSlot),
                Some(slots) => Ok(ReportSpec::Scan(parse_names(nsec), slots)),
            },
        }
    } else {
        Ok(ReportSpec::Other(msg[0]))
    }
}

/// Decode one wire message against a session width: a scan must carry
/// exactly `width³` slots and no dangling dictionary reference.
pub open spec fn report_outcome(w: u16, msg: Seq<u8>) -> Result<ReportSpec, ProtocolError> {
    match parse_report(msg) {
        Ok(ReportSpec::Scan(names, slots)) => {
            if slots.len() != crate::objects::volume(w) {
                Err(ProtocolError::CountMismatch)
            } else if exists|i: int| 0 <= i < slots.len() && #[trigger] slots[i] > names.len() {
                Err(ProtocolError::DanglingReference)
            } else {
                Ok(ReportSpec::Scan(names, slots))
            }
        },
        other => other,
    }
}

/// How one decoded slot rewrites one grid cell: slot `0` empties the
/// cell (its stale colour is irrelevant and kept); a positive slot
/// names it after the 1-based dictionary entry and gives it that name's
/// derived colour. The coordinate never changes.
pub open spec fn applied_block_ok(
    old_block: crate::objects::Block,
    new_block: crate::objects::Block,
    names: Seq<Seq<u8>>,
    slot: u16,
) -> bool {
    &&& new_block.coord == old_block.coord
    &&& if slot == 0 {
        new_block.name matches crate::objects::Identity::Air && new_block.color == old_block.color
    } else {
        new_block.name matches crate::objects::Identity::Named(nm) && nm@ == names[slot - 1]
            && new_block.color == crate::color::color_of(names[slot - 1])
    }
}

/// A successful scan overwrites every cell according to its slot.
pub open spec fn scan_applied(
    old_blocks: Seq<crate::objects::Block>,
    new_blocks: Seq<crate::objects::Block>,
    names: Seq<Seq<u8>>,
    slots: Seq<u16>,
) -> bool {
    &&& new_blocks.len() == old_blocks.len()
    &&& forall|i: int|
        0 <= i < old_blocks.len() ==> applied_block_ok(
            old_blocks[i],
            #[trigger] new_blocks[i],
            names,
            slots[i],
        )
}

/// Split into comma-separated pieces.
fn split_pieces(s: &[u8]) -> (pieces: Vec<Vec<u8>>)
    ensures
        pieces.deep_view() == split_commas(s@),
{
    let mut pieces: Vec<Vec<u8>> = Vec::new();
    let n = s.len();
    let mut k: usize = 0;
    loop
        invariant
            n == s@.len(),
            k <= s@.len(),
            split_commas(s@) == pieces.deep_view() + split_commas_from(s@, k as int),
        decreases s@.len() - k,
    {
        match find_comma(s, k) {
            None => {
                let ghost old_pieces = pieces.deep_view();
                let piece = slice_to_vec(&s[k..n]);
                pieces.push(piece);
                proof {
                    assert(pieces.deep_view() =~~= old_pieces.push(
                        s@.subrange(k as int, s@.len() as int),
                    ));
                    assert(old_pieces.push(s@.subrange(k as int, s@.len() as int)) =~~= old_pieces
                        + split_commas_from(s@, k as int));
                }
                return pieces;
            },
            Some(i) => {
                let ghost old_pieces = pieces.deep_view();
                let piece = slice_to_vec(&s[k..i]);
                pieces.push(piece);
                proof {
                    lemma_find_from_props(s@, COMMA, k as int);
                    assert(pieces.deep_view() =~~= old_pieces.push(
                        s@.subrange(k as int, i as int),
                    ));
                    lemma_concat_associative(
                        old_pieces,
                        seq![s@.subrange(k as int, i as int)],
                        split_commas_from(s@, i as int + 1),
                    );
                    assert(old_pieces.push(s@.subrange(k as int, i as int)) =~~= old_pieces + seq![
                        s@.subrange(k as int, i as int),
                    ]);
                }
                k = i + 1;
            },
        }
    }
}

/// Decode the name dictionary section.
fn parse_name_list(s: &[u8]) -> (names: Vec<Vec<u8>>)
    ensures
        names.deep_view() == parse_names(s@),
{
    let pieces = split_pieces(s);
    let mut names: Vec<Vec<u8>> = Vec::new();
    let mut j: usize = 0;
    while j < pieces.len()
        invariant
            j <= pieces@.len(),
            pieces.deep_view() == split_commas(s@),
            names@.len() == j,
            forall|t: int|
                0 <= t < j ==> (#[trigger] names@[t])@ == strip_quotes(pieces.deep_view()[t]),
        decreases pieces@.len() - j,
    {
        proof {
            assert(pieces@[j as int].deep_view() =~= pieces@[j as int]@);
        }
        let stripped = strip_quotes_exec(pieces[j].as_slice());
        names.push(stripped);
        j = j + 1;
    }
    proof {
        assert(names.deep_view() =~~= parse_names(s@));
    }
    names
}

/// Decode the slot list section; `None` when any entry is malformed.
fn parse_slot_list(s: &[u8]) -> (r: Option<Vec<u16>>)
    ensures
        match r {
            None => parse_slots(s@) is None,
            Some(v) => parse_slots(s@) == Some(v@),
        },
{
    let pieces = split_pieces(s);
    let mut vals: Vec<u16> = Vec::new();
    let mut j: usize = 0;
    while j < pieces.len()
        invariant
            j <= pieces@.len(),
            pieces.deep_view() == split_commas(s@),
            vals@.len() == j,
            forall|t: int|
                0 <= t < j ==> parse_u16(#[trigger] pieces.deep_view()[t]) == Some(vals@[t]),
        decreases pieces@.len() - j,
    {
        proof {
            assert(pieces@[j as int].deep_view() =~= pieces@[j as int]@);
        }
        match parse_u16_exec(pieces[j].as_slice()) {
            None => {
                assert(parse_u16(pieces.deep_view()[j as int]) is None);
                return None;
            },
            Some(v) => {
                vals.push(v);
            },
        }
        j = j + 1;
    }
    proof {
        let pcs = split_commas(s@);
        assert(forall|i: int| 0 <= i < pcs.len() ==> parse_u16(#[trigger] pcs[i]) is Some);
        assert(Seq::new(pcs.len(), |i: int| parse_u16(pcs[i]).unwrap()) =~= vals@);
    }
    Some(vals)
}

impl Renderer {
    /// Overwrite every cell from a fully validated scan.
    fn apply_scan(&mut self, names: &Vec<Vec<u8>>, slots: &Vec<u16>)
        requires
            old(self).wf(),
            slots@.len() == old(self).blocks@.len(),
            forall|i: int| 0 <= i < slots@.len() ==> #[trigger] slots@[i] <= names@.len(),
        ensures
            final(self).wf(),
            final(self).width == old(self).width,
            scan_applied(old(self).blocks@, final(self).blocks@, names.deep_view(), slots@),
    {
        let mut colors: Vec<Rgb> = Vec::new();
        let mut j: usize = 0;
        while j < names.len()
            invariant
                j <= names@.len(),
                colors@.len() == j,
                forall|t: int|
                    0 <= t < j ==> #[trigger] colors@[t] == color_of(names.deep_view()[t]),
            decreases names@.len() - j,
        {
            proof {
                assert(names@[j as int].deep_view() =~= names@[j as int]@);
            }
            colors.push(block_color(names[j].as_slice()));
            j = j + 1;
        }
        let n = slots.len();
        let mut new_blocks: Vec<Block> = Vec::new();
        let mut i: usize = 0;
        while i < n
            invariant
                *self == *old(self),
                self.wf(),
                n == slots@.len(),
                slots@.len() == self.blocks@.len(),
                forall|t: int| 0 <= t < slots@.len() ==> #[trigger] slots@[t] <= names@.len(),
                colors@.len() == names@.len(),
                forall|t: int|
                    0 <= t < names@.len() ==> #[trigger] colors@[t] == color_of(
                        names.deep_view()[t],
                    ),
                i <= n,
                new_blocks@.len() == i,
                forall|t: int|
                    0 <= t < i ==> applied_block_ok(
                        self.blocks@[t],
                        #[trigger] new_blocks@[t],
                        names.deep_view(),
                        slots@[t],
                    ),
            decreases n - i,
        {
            let slot = slots[i];
            let b = &self.blocks[i];
            if slot == 0 {
                new_blocks.push(Block { name: Identity::Air, coord: b.coord, color: b.color });
            } else {
                let idx = (slot - 1) as usize;
                proof {
                    assert(names@[idx as int].deep_view() =~= names@[idx as int]@);
                }
                let nm = slice_to_vec(names[idx].as_slice());
                new_blocks.push(
                    Block { name: Identity::Named(nm), coord: b.coord, color: colors[idx] },
                );
            }
            i = i + 1;
        }
        self.blocks = new_blocks;
    }

    /// Handle one inbound wire message.
    ///
    /// The first byte selects the kind: an acknowledgement and a
    /// command failure only report; a scan report is decoded, validated
    /// in full against this grid's width, and then — and only then —
    /// overwrites every cell. A rejected report leaves the grid exactly
    /// as it was. An unknown discriminator is reported as a warning and
    /// ignored.
    #[verifier::loop_isolation(false)]
    pub fn message_event(&mut self, msg: &[u8]) -> (r: Result<Outcome, ProtocolError>)
        requires
            old(self).wf(),
        ensures
            final(self).wf(),
            final(self).width == old(self).width,
            ({
                let pr = report_outcome(old(self).width, msg@);
                match pr {
                    Err(e) => r == Err::<Outcome, ProtocolError>(e) && final(self).blocks@ == old(
                        self,
                    ).blocks@,
                    Ok(ReportSpec::Ack) => r matches Ok(Outcome::Ack) && final(self).blocks@ == old(
                        self,
                    ).blocks@,
                    Ok(ReportSpec::Failed(t)) => (r matches Ok(Outcome::CommandFailed(v)) && v@
                        == t) && final(self).blocks@ == old(self).blocks@,
                    Ok(ReportSpec::Other(d)) => r matches Ok(Outcome::Unknown(dd)) && dd == d
                        && final(self).blocks@ == old(self).blocks@,
                    Ok(ReportSpec::Scan(names, slots)) => r matches Ok(Outcome::ScanApplied)
                        && scan_applied(old(self).blocks@, final(self).blocks@, names, slots),
                }
            }),
    {
        if msg.len() == 0 {
            return Err(ProtocolError::Empty);
        }
        let kind = msg[0];
        let n = msg.len();
        if kind == KIND_ACK {
            return Ok(Outcome::Ack);
        }
        if kind == KIND_FAILED {
            return Ok(Outcome::CommandFailed(slice_to_vec(&msg[1..n])));
        }
        if kind != KIND_SCAN {
            return Ok(Outcome::Unknown(kind));
        }
        let body = &msg[1..n];
        let blen = body.len();
        if blen < 2 || body[0] != OPEN_BRACKET || body[blen - 1] != CLOSE_BRACKET {
            return Err(ProtocolError::Malformed);
        }
        let bnd = match find_boundary(body, 0) {
            None => {
                return Err(ProtocolError::Malformed);
            },
            Some(i) => i,
        };
        proof {
            lemma_find_boundary_props(body@, 0);
            assert(1 <= bnd && bnd + 2 <= blen - 1);
        }
        let nsec = &body[1..bnd];
        let ssec = &body[bnd + 2..blen - 1];
        let names = parse_name_list(nsec);
        let slots = match parse_slot_list(ssec) {
            None => {
                return Err(ProtocolError::NonNumericSlot);
            },
            Some(v) => v,
        };
        let vol = cube_volume(self.width);
        if slots.len() != vol {
            return Err(ProtocolError::CountMismatch);
        }
        let mut i: usize = 0;
        let slot_count = slots.len();
        while i < slot_count
            invariant
                slot_count == slots@.len(),
                i <= slot_count,
                names@.len() == parse_names(nsec@).len(),
                forall|t: int| 0 <= t < i ==> #[trigger] slots@[t] <= names@.len(),
            decreases slot_count - i,
        {
            if (slots[i] as usize) > names.len() {
                return Err(ProtocolError::DanglingReference);
            }
            i = i + 1;
        }
        self.apply_scan(&names, &slots);
        Ok(Outcome::ScanApplied)
    }
}

/// The first-seen dictionary of the names of the occupied blocks below
/// index `n`.
pub open spec fn dict_upto(blocks: Seq<Block>, n: int) -> Seq<Seq<u8>>
    decreases n,
{
    if n <= 0 {
        Seq::empty()
    } else {
        let d = dict_upto(blocks, n - 1);
        match blocks[n - 1].name {
            Identity::Air => d,
            Identity::Named(nm) => if d.contains(nm@) {
                d
            } else {
                d.push(nm@)
            },
        }
    }
}

/// The name dictionary of a whole grid, in first-seen order.
pub open spec fn dict_of(blocks: Seq<Block>) -> Seq<Seq<u8>> {
    dict_upto(blocks, blocks.len() as int)
}

/// The first position at or after `k` where `dict` holds `nm`;
/// `dict.len()` when it does not.
pub open spec fn dict_index_from(dict: Seq<Seq<u8>>, nm: Seq<u8>, k: int) -> int
    decreases dict.len() - k,
{
    if k < 0 || k >= dict.len() {
        dict.len() as int
    } else if dict[k] == nm {
        k
    } else {
        dict_index_from(dict, nm, k + 1)
    }
}

/// The wire slot of one block against a dictionary: `0` for air, else
/// the 1-based dictionary position of its name.
pub open spec fn slot_spec(dict: Seq<Seq<u8>>, b: Block) -> int {
    match b.name {
        Identity::Air => 0,
        Identity::Named(nm) => dict_index_from(dict, nm@, 0) + 1,
    }
}

/// The wire slots of a whole grid.
pub open spec fn slots_of(blocks: Seq<Block>, dict: Seq<Seq<u8>>) -> Seq<u16> {
    Seq::new(blocks.len(), |i: int| slot_spec(dict, blocks[i]) as u16)
}

/// A dictionary entry as it appears on the wire.
pub open spec fn quote_name(nm: Seq<u8>) -> Seq<u8> {
    seq![QUOTE] + nm + seq![QUOTE]
}

/// Pieces joined with commas between them.
pub open spec fn join_commas(pieces: Seq<Seq<u8>>) -> Seq<u8>
    decreases pieces.len(),
{
    if pieces.len() == 0 {
        Seq::empty()
    } else if pieces.len() == 1 {
        pieces[0]
    } else {
        pieces[0] + seq![COMMA] + join_commas(pieces.drop_first())
    }
}

/// The decimal digits of a non-negative value.
pub open spec fn u16_digits(v: int) -> Seq<u8>
    decreases v,
{
    if v <= 9 {
        seq![(DIGIT_ZERO + v) as u8]
    } else {
        u16_digits(v / 10) + seq![(DIGIT_ZERO + v % 10) as u8]
    }
}

/// A whole grid as a scan report message.
pub open spec fn encode_spec(blocks: Seq<Block>) -> Seq<u8> {
    let dict = dict_of(blocks);
    seq![KIND_SCAN, OPEN_BRACKET] + join_commas(
        dict.map_values(|nm: Seq<u8>| quote_name(nm)),
    ) + seq![CLOSE_BRACKET, OPEN_BRACKET] + join_commas(
        slots_of(blocks, dict).map_values(|v: u16| u16_digits(v as int)),
    ) + seq![CLOSE_BRACKET]
}

/// Joining one more piece appends it after a comma (or alone when it is
/// the first).
proof fn lemma_join_push(pieces: Seq<Seq<u8>>, x: Seq<u8>)
    ensures
        join_commas(pieces.push(x)) == if pieces.len() == 0 {
            x
        } else {
            join_commas(pieces) + seq![COMMA] + x
        },
    decreases pieces.len(),
{
    let extended = pieces.push(x);
    if pieces.len() == 0 {
        assert(extended.len() == 1);
        assert(extended[0] == x);
    } else {
        assert(extended.len() >= 2);
        assert(extended.drop_first() =~= pieces.drop_first().push(x));
        lemma_join_push(pieces.drop_first(), x);
        if pieces.len() == 1 {
            assert(join_commas(extended) == pieces[0] + seq![COMMA] + x);
            assert(join_commas(pieces) == pieces[0]);
        } else {
            assert(join_commas(extended) == extended[0] + seq![COMMA] + (join_commas(
                pieces.drop_first(),
            ) + seq![COMMA] + x));
            assert(extended[0] + seq![COMMA] + (join_commas(pieces.drop_first()) + seq![COMMA] + x)
                =~= (pieces[0] + seq![COMMA] + join_commas(pieces.drop_first())) + seq![COMMA] + x);
        }
    }
}

/// Compare two byte strings.
fn bytes_eq(a: &[u8], b: &[u8]) -> (r: bool)
    ensures
        r == (a@ == b@),
{
    if a.len() != b.len() {
        assert(a@ != b@);
        return false;
    }
    let n = a.len();
    let mut k: usize = 0;
    while k < n
        invariant
            n == a@.len() == b@.len(),
            k <= n,
            forall|t: int| 0 <= t < k ==> a@[t] == b@[t],
        decreases n - k,
    {
        if a[k] != b[k] {
            assert(a@ != b@);
            return false;
        }
        k = k + 1;
    }
    proof {
        assert(a@ =~= b@);
    }
    true
}

/// The first dictionary position holding `nm`, if any.
fn index_of_bytes(dict: &Vec<Vec<u8>>, nm: &[u8]) -> (r: Option<usize>)
    ensures
        match r {
            Some(i) => i < dict@.len() && dict_index_from(dict.deep_view(), nm@, 0) == i,
            None => !dict.deep_view().contains(nm@) && dict_index_from(dict.deep_view(), nm@, 0)
                == dict.deep_view().len(),
        },
{
    let n = dict.len();
    let mut k: usize = 0;
    while k < n
        invariant
            n == dict@.len(),
            k <= n,
            dict_index_from(dict.deep_view(), nm@, 0) == dict_index_from(
                dict.deep_view(),
                nm@,
                k as int,
            ),
            forall|t: int| 0 <= t < k ==> dict.deep_view()[t] != nm@,
        decreases n - k,
    {
        proof {
            assert(dict@[k as int].deep_view() =~= dict@[k as int]@);
        }
        if bytes_eq(dict[k].as_slice(), nm) {
            return Some(k);
        }
        k = k + 1;
    }
    proof {
        if dict.deep_view().contains(nm@) {
            let w = choose|t: int| 0 <= t < dict.deep_view().len() && dict.deep_view()[t] == nm@;
            assert(dict.deep_view()[w] == nm@);
        }
    }
    None
}

/// Append a byte string.
fn push_bytes(out: &mut Vec<u8>, s: &[u8])
    ensures
        final(out)@ == old(out)@ + s@,
{
    let n = s.len();
    let mut k: usize = 0;
    while k < n
        invariant
            n == s@.len(),
            k <= n,
            out@ == old(out)@ + s@.subrange(0, k as int),
        decreases n - k,
    {
        out.push(s[k]);
        proof {
            assert(old(out)@ + s@.subrange(0, k as int + 1) =~= (old(out)@ + s@.subrange(
                0,
                k as int,
            )).push(s@[k as int]));
        }
        k = k + 1;
    }
    proof {
        assert(s@.subrange(0, s@.len() as int) =~= s@);
    }
}

/// Append a slot value in decimal.
fn push_u16_digits(out: &mut Vec<u8>, v: u16)
    ensures
        final(out)@ == old(out)@ + u16_digits(v as int),
    decreases v,
{
    if v <= 9 {
        out.push(DIGIT_ZERO + (v as u8));
        proof {
            assert(old(out)@ + u16_digits(v as int) =~= old(out)@.push((DIGIT_ZERO + v) as u8));
        }
    } else {
        push_u16_digits(out, v / 10);
        out.push(DIGIT_ZERO + ((v % 10) as u8));
        proof {
            assert(old(out)@ + u16_digits(v as int) =~= (old(out)@ + u16_digits(
                v as int / 10,
            )).push((DIGIT_ZERO + v as int % 10) as u8));
        }
    }
}

impl Renderer {
    /// Encode this grid as a scan report: the wire image of the
    /// first-seen name dictionary and the slot of every cell in
    /// scan-index order. This is the decoder's inverse and exists for
    /// round-trip checking.
    #[verifier::loop_isolation(false)]
    pub fn encode_report(&self) -> (msg: Vec<u8>)
        requires
            self.wf(),
        ensures
            msg@ == encode_spec(self.blocks@),
    {
        let blocks = &self.blocks;
        let n = blocks.len();
        let mut dict: Vec<Vec<u8>> = Vec::new();
        let mut i: usize = 0;
        while i < n
            invariant
                i <= n,
                dict.deep_view() == dict_upto(blocks@, i as int),
                dict@.len() <= i,
            decreases n - i,
        {
            match &blocks[i].name {
                Identity::Air => {},
                Identity::Named(nm) => {
                    match index_of_bytes(&dict, nm.as_slice()) {
                        Some(at) => {
                            proof {
                                let dv = dict.deep_view();
                                lemma_dict_index_props(dv, nm@, 0);
                                assert(dv[at as int] == nm@);
                                assert(dv.contains(nm@));
                            }
                        },
                        None => {
                            let ghost old_dv = dict.deep_view();
                            dict.push(slice_to_vec(nm.as_slice()));
                            proof {
                                assert(dict.deep_view() =~~= old_dv.push(nm@));
                            }
                        },
                    }
                },
            }
            i = i + 1;
        }
        let ghost dv = dict.deep_view();
        let ghost qpieces = dv.map_values(|nm2: Seq<u8>| quote_name(nm2));
        let mut out: Vec<u8> = Vec::new();
        out.push(KIND_SCAN);
        out.push(OPEN_BRACKET);
        proof {
            assert(out@ =~= seq![KIND_SCAN, OPEN_BRACKET]);
            assert(qpieces.subrange(0, 0) =~= Seq::<Seq<u8>>::empty());
        }
        let dict_len = dict.len();
        let mut j: usize = 0;
        while j < dict_len
            invariant
                j <= dict_len,
                out@ == seq![KIND_SCAN, OPEN_BRACKET] + join_commas(qpieces.subrange(0, j as int)),
            decreases dict_len - j,
        {
            if j > 0 {
                out.push(COMMA);
            }
            out.push(QUOTE);
            push_bytes(&mut out, dict[j].as_slice());
            out.push(QUOTE);
            proof {
                assert(dict@[j as int].deep_view() =~= dict@[j as int]@);
                lemma_join_push(qpieces.subrange(0, j as int), quote_name(dv[j as int]));
                assert(qpieces.subrange(0, j as int).push(quote_name(dv[j as int])) =~= qpieces
                    .subrange(0, j as int + 1));
                assert(out@ =~= seq![KIND_SCAN, OPEN_BRACKET] + join_commas(
                    qpieces.subrange(0, j as int + 1),
                ));
            }
            j = j + 1;
        }
        proof {
            assert(qpieces.subrange(0, dict_len as int) =~= qpieces);
        }
        out.push(CLOSE_BRACKET);
        out.push(OPEN_BRACKET);
        let ghost names_done = seq![KIND_SCAN, OPEN_BRACKET] + join_commas(qpieces) + seq![
            CLOSE_BRACKET,
            OPEN_BRACKET,
        ];
        proof {
            assert(out@ =~= names_done);
        }
        let ghost slots = slots_of(blocks@, dv);
        let ghost spieces = slots.map_values(|v: u16| u16_digits(v as int));
        proof {
            assert(spieces.subrange(0, 0) =~= Seq::<Seq<u8>>::empty());
        }
        let mut i2: usize = 0;
        while i2 < n
            invariant
                i2 <= n,
                out@ == names_done + join_commas(spieces.subrange(0, i2 as int)),
            decreases n - i2,
        {
            if i2 > 0 {
                out.push(COMMA);
            }
            let slot: u16 = match &blocks[i2].name {
                Identity::Air => 0,
                Identity::Named(nm) => {
                    proof {
                        lemma_dict_contains_name(blocks@, i2 as int, n as int);
                        lemma_dict_index_props(dv, nm@, 0);
                        if dict_index_from(dv, nm@, 0) == dv.len() {
                            let w = choose|t: int| 0 <= t < dv.len() && dv[t] == nm@;
                            assert(dv[w] == nm@);
                        }
                    }
                    match index_of_bytes(&dict, nm.as_slice()) {
                        Some(idx) => (idx + 1) as u16,
                        None => {
                            proof {
                                assert(false);
                            }
                            0
                        },
                    }
                },
            };
            proof {
                assert(slot as int == slot_spec(dv, blocks@[i2 as int]));
                assert(spieces[i2 as int] == u16_digits(slot as int));
            }
            push_u16_digits(&mut out, slot);
            proof {
                lemma_join_push(spieces.subrange(0, i2 as int), u16_digits(slot as int));
                assert(spieces.subrange(0, i2 as int).push(u16_digits(slot as int)) =~= spieces
                    .subrange(0, i2 as int + 1));
                assert(out@ =~= names_done + join_commas(spieces.subrange(0, i2 as int + 1)));
            }
            i2 = i2 + 1;
        }
        out.push(CLOSE_BRACKET);
        proof {
            assert(spieces.subrange(0, n as int) =~= spieces);
            assert(out@ =~= encode_spec(self.blocks@));
        }
        out
    }
}

/// What the dictionary search means.
proof fn lemma_dict_index_props(dict: Seq<Seq<u8>>, nm: Seq<u8>, k: int)
    requires
        0 <= k <= dict.len(),
    ensures
        ({
            let at = dict_index_from(dict, nm, k);
            &&& k <= at <= dict.len()
            &&& (at < dict.len() ==> dict[at] == nm)
            &&& (at == dict.len() ==> forall|t: int| k <= t < dict.len() ==> dict[t] != nm)
        }),
    decreases dict.len() - k,
{
    if k < dict.len() && dict[k] != nm {
        lemma_dict_index_props(dict, nm, k + 1);
    }
}

/// Every occupied block's name is in the dictionary.
proof fn lemma_dict_contains_name(blocks: Seq<Block>, i: int, n: int)
    requires
        0 <= i < n <= blocks.len(),
        blocks[i].name matches Identity::Named(nm),
    ensures
        ({
            let nm = blocks[i].name->Named_0;
            dict_upto(blocks, n).contains(nm@)
        }),
    decreases n,
{
    let nm = blocks[i].name->Named_0;
    if i == n - 1 {
        let d = dict_upto(blocks, n - 1);
        if !d.contains(nm@) {
            assert(dict_upto(blocks, n) == d.push(nm@));
            assert(d.push(nm@)[d.len() as int] == nm@);
        }
    } else {
        lemma_dict_contains_name(blocks, i, n - 1);
        let d = dict_upto(blocks, n - 1);
        let w = choose|t: int| 0 <= t < d.len() && d[t] == nm@;
        match blocks[n - 1].name {
            Identity::Air => {},
            Identity::Named(nm2) => {
                if !d.contains(nm2@) {
                    assert(d.push(nm2@)[w] == nm@);
                }
            },
        }
    }
}


/// No `"]["` pair occurs in `s`.
pub open spec fn pair_free(s: Seq<u8>) -> bool {
    forall|i: int|
        #![trigger s[i]]
        0 <= i < s.len() - 1 ==> !(s[i] == CLOSE_BRACKET && s[i + 1] == OPEN_BRACKET)
}

/// A name survives the wire unchanged when it holds no comma, no quote
/// and no `"]["` pair: those are the only bytes the report syntax
/// itself uses between entries.
pub open spec fn wire_safe(nm: Seq<u8>) -> bool {
    &&& forall|i: int| 0 <= i < nm.len() ==> #[trigger] nm[i] != COMMA && nm[i] != QUOTE
    &&& pair_free(nm)
}

/// Every occupied block of the grid carries a wire-safe name.
pub open spec fn wire_safe_names(blocks: Seq<Block>) -> bool {
    forall|i: int|
        0 <= i < blocks.len() ==> ((#[trigger] blocks[i]).name matches Identity::Named(nm)
            ==> wire_safe(nm@))
}

/// Every occupied block carries the colour derived from its name, as
/// the decoder itself assigns it.
pub open spec fn colors_derived(blocks: Seq<Block>) -> bool {
    forall|i: int|
        0 <= i < blocks.len() ==> ((#[trigger] blocks[i]).name matches Identity::Named(nm)
            ==> blocks[i].color == color_of(nm@))
}

/// Stripping the quotes that encoding added gives the name back.
proof fn lemma_strip_quote_name(nm: Seq<u8>)
    requires
        forall|i: int| 0 <= i < nm.len() ==> #[trigger] nm[i] != QUOTE,
    ensures
        strip_quotes(quote_name(nm)) == nm,
{
    let q = quote_name(nm);
    assert(q.len() == nm.len() + 2);
    assert(q[0] == QUOTE);
    let t = nm + seq![QUOTE];
    assert(q.drop_first() =~= t);
    assert(strip_quotes(q) == strip_quotes(t));
    if nm.len() == 0 {
        assert(t[0] == QUOTE);
        assert(t.drop_first() =~= nm);
        assert(strip_quotes(t) == strip_quotes(nm));
        assert(strip_quotes(nm) == nm);
    } else {
        assert(nm[0] != QUOTE && nm.last() != QUOTE);
        assert(t[0] == nm[0]);
        assert(t.last() == QUOTE);
        assert(t.drop_last() =~= nm);
        assert(strip_quotes(t) == strip_quotes(nm));
        assert(strip_quotes(nm) == nm);
    }
}

/// The digits of a slot value parse back to that value.
proof fn lemma_u16_digits_parse(v: int)
    requires
        0 <= v <= 0xFFFF,
    ensures
        ({
            let ds = u16_digits(v);
            &&& ds.len() >= 1
            &&& all_digits(ds)
            &&& digits_val(ds) == v
            &&& parse_u16(ds) == Some(v as u16)
        }),
    decreases v,
{
    let ds = u16_digits(v);
    if v <= 9 {
        assert(((DIGIT_ZERO + v) as u8) as int == DIGIT_ZERO + v);
        assert(ds =~= seq![(DIGIT_ZERO + v) as u8]);
        assert(ds.drop_last() =~= Seq::<u8>::empty());
        assert(digits_val(ds.drop_last()) == 0);
        assert(ds.last() as int == DIGIT_ZERO + v);
        assert(digits_val(ds) == v);
        assert(all_digits(ds));
    } else {
        lemma_fundamental_div_mod(v, 10);
        lemma_u16_digits_parse(v / 10);
        let prefix = u16_digits(v / 10);
        let d = (DIGIT_ZERO + v % 10) as u8;
        assert(d as int == DIGIT_ZERO + v % 10);
        assert(ds == prefix + seq![d]);
        assert(ds.drop_last() =~= prefix);
        assert(ds.last() == d);
        assert(digits_val(prefix) == v / 10);
        assert(d as int == DIGIT_ZERO + v % 10);
        assert(digits_val(ds) == digits_val(ds.drop_last()) * 10 + (ds.last() - DIGIT_ZERO));
        assert(digits_val(ds) == (v / 10) * 10 + v % 10);
        assert(digits_val(ds) == v);
        assert forall|i: int| 0 <= i < ds.len() implies is_digit(#[trigger] ds[i]) by {
            if i < prefix.len() {
                assert(ds[i] == prefix[i]);
            } else {
                assert(ds[i] == d);
            }
        }
    }
}

/// Splitting from `k` is splitting the tail that starts at `k`.
proof fn lemma_split_from_subrange(s: Seq<u8>, k: int)
    requires
        0 <= k <= s.len(),
    ensures
        split_commas_from(s, k) == split_commas(s.subrange(k, s.len() as int)),
    decreases s.len() - k,
{
    let t = s.subrange(k, s.len() as int);
    lemma_find_from_props(s, COMMA, k);
    lemma_find_from_props(t, COMMA, 0);
    match find_from(s, COMMA, k) {
        None => {
            match find_from(t, COMMA, 0) {
                None => {
                    assert(t.subrange(0, t.len() as int) =~= s.subrange(k, s.len() as int));
                },
                Some(j) => {
                    assert(s[k + j] == COMMA);
                },
            }
        },
        Some(i) => {
            assert(t[i - k] == COMMA);
            match find_from(t, COMMA, 0) {
                None => {
                    assert(false);
                },
                Some(j) => {
                    if j < i - k {
                        assert(s[k + j] == COMMA);
                        assert(false);
                    }
                    if j > i - k {
                        assert(t[i - k] != COMMA);
                        assert(false);
                    }
                    assert(j == i - k);
                    assert(t.subrange(0, j) =~= s.subrange(k, i));
                    lemma_split_from_subrange(s, i + 1);
                    lemma_split_from_subrange(t, j + 1);
                    assert(t.subrange(j + 1, t.len() as int) =~= s.subrange(
                        i + 1,
                        s.len() as int,
                    ));
                },
            }
        },
    }
}

/// Splitting a comma-joined list of comma-free pieces gives the pieces
/// back.
proof fn lemma_split_join(pieces: Seq<Seq<u8>>)
    requires
        pieces.len() >= 1,
        forall|i: int|
            0 <= i < pieces.len() ==> forall|j: int|
                0 <= j < (#[trigger] pieces[i]).len() ==> (#[trigger] pieces[i][j]) != COMMA,
    ensures
        split_commas(join_commas(pieces)) == pieces,
    decreases pieces.len(),
{
    let s = join_commas(pieces);
    lemma_find_from_props(s, COMMA, 0);
    if pieces.len() == 1 {
        assert(s == pieces[0]);
        match find_from(s, COMMA, 0) {
            None => {
                assert(s.subrange(0, s.len() as int) =~= pieces[0]);
                assert(split_commas(s) =~= pieces);
            },
            Some(i) => {
                assert(pieces[0][i] == COMMA);
                assert(false);
            },
        }
    } else {
        let p0 = pieces[0];
        let rest = join_commas(pieces.drop_first());
        assert(s == p0 + seq![COMMA] + rest);
        let cpos = p0.len() as int;
        assert(s[cpos] == COMMA);
        match find_from(s, COMMA, 0) {
            None => {
                assert(false);
            },
            Some(i) => {
                if i < cpos {
                    assert(s[i] == p0[i]);
                    assert(false);
                }
                if i > cpos {
                    assert(s[cpos] != COMMA);
                    assert(false);
                }
                assert(i == cpos);
                assert(s.subrange(0, cpos) =~= p0);
                lemma_split_from_subrange(s, cpos + 1);
                assert(s.subrange(cpos + 1, s.len() as int) =~= rest);
                lemma_split_join(pieces.drop_first());
                assert(split_commas(s) == seq![p0] + pieces.drop_first());
                assert(seq![p0] + pieces.drop_first() =~= pieces);
            },
        }
    }
}

/// Concatenation keeps pair-freedom when the junction makes no pair.
proof fn lemma_pair_free_concat(a: Seq<u8>, b: Seq<u8>)
    requires
        pair_free(a),
        pair_free(b),
        !(a.len() > 0 && b.len() > 0 && a.last() == CLOSE_BRACKET && b[0] == OPEN_BRACKET),
    ensures
        pair_free(a + b),
{
    let s = a + b;
    assert forall|i: int|
        0 <= i < s.len() - 1 implies !(#[trigger] s[i] == CLOSE_BRACKET && s[i + 1]
        == OPEN_BRACKET) by {
        if i + 1 < a.len() {
            assert(s[i] == a[i] && s[i + 1] == a[i + 1]);
        } else if i < a.len() {
            assert(s[i] == a[i] && s[i + 1] == b[0]);
            assert(a[i] == a.last());
        } else {
            assert(s[i] == b[i - a.len()] && s[i + 1] == b[i + 1 - a.len()]);
        }
    }
}

/// A quoted wire-safe name holds no pair.
proof fn lemma_quote_pair_free(nm: Seq<u8>)
    requires
        wire_safe(nm),
    ensures
        pair_free(quote_name(nm)),
{
    let q = quote_name(nm);
    assert forall|i: int|
        0 <= i < q.len() - 1 implies !(#[trigger] q[i] == CLOSE_BRACKET && q[i + 1]
        == OPEN_BRACKET) by {
        if i == 0 {
            assert(q[0] == QUOTE);
        } else if i + 1 < q.len() - 1 {
            assert(q[i] == nm[i - 1] && q[i + 1] == nm[i]);
        } else {
            assert(q[i + 1] == QUOTE);
        }
    }
}

/// The joined, quoted dictionary holds no pair.
proof fn lemma_join_quoted_pair_free(dict: Seq<Seq<u8>>)
    requires
        forall|t: int| 0 <= t < dict.len() ==> wire_safe(#[trigger] dict[t]),
    ensures
        pair_free(join_commas(dict.map_values(|nm: Seq<u8>| quote_name(nm)))),
        dict.len() > 0 ==> join_commas(dict.map_values(|nm: Seq<u8>| quote_name(nm)))[0] == QUOTE,
    decreases dict.len(),
{
    let qpieces = dict.map_values(|nm: Seq<u8>| quote_name(nm));
    if dict.len() == 0 {
    } else if dict.len() == 1 {
        assert(join_commas(qpieces) == qpieces[0]);
        lemma_quote_pair_free(dict[0]);
    } else {
        lemma_quote_pair_free(dict[0]);
        assert(qpieces.drop_first() =~= dict.drop_first().map_values(
            |nm: Seq<u8>| quote_name(nm),
        ));
        lemma_join_quoted_pair_free(dict.drop_first());
        let rest = join_commas(qpieces.drop_first());
        assert(pair_free(seq![COMMA]));
        lemma_pair_free_concat(seq![COMMA], rest);
        assert((seq![COMMA] + rest)[0] == COMMA);
        lemma_pair_free_concat(qpieces[0], seq![COMMA] + rest);
        assert(qpieces[0] + (seq![COMMA] + rest) =~= qpieces[0] + seq![COMMA] + rest);
        assert(join_commas(qpieces) == qpieces[0] + seq![COMMA] + rest);
    }
}

/// Every dictionary entry of a wire-safe grid is wire-safe.
proof fn lemma_dict_entries_wire_safe(blocks: Seq<Block>, n: int)
    requires
        wire_safe_names(blocks),
        0 <= n <= blocks.len(),
    ensures
        forall|t: int| 0 <= t < dict_upto(blocks, n).len() ==> wire_safe(#[trigger] dict_upto(blocks, n)[t]),
    decreases n,
{
    if n > 0 {
        lemma_dict_entries_wire_safe(blocks, n - 1);
        let d = dict_upto(blocks, n - 1);
        match blocks[n - 1].name {
            Identity::Air => {},
            Identity::Named(nm) => {
                if !d.contains(nm@) {
                    assert(wire_safe(nm@));
                    assert forall|t: int|
                        0 <= t < d.push(nm@).len() implies wire_safe(
                        #[trigger] d.push(nm@)[t],
                    ) by {
                        if t < d.len() {
                            assert(d.push(nm@)[t] == d[t]);
                        } else {
                            assert(d.push(nm@)[t] == nm@);
                        }
                    }
                }
            },
        }
    }
}

/// Decoding a report encoded from a well-formed grid whose names are
/// wire-safe and whose colours are the derived ones succeeds, and
/// applying the decoded scan to that same grid reproduces it exactly:
/// identity assignment survives the round trip.
pub proof fn lemma_encode_decode_round_trip(g: Renderer)
    requires
        g.wf(),
        wire_safe_names(g.blocks@),
        colors_derived(g.blocks@),
    ensures
        ({
            let pr = report_outcome(g.width, encode_spec(g.blocks@));
            &&& pr matches Ok(ReportSpec::Scan(names, slots))
            &&& slots == slots_of(g.blocks@, dict_of(g.blocks@))
            &&& scan_applied(g.blocks@, g.blocks@, names, slots)
        }),
{
    let blocks = g.blocks@;
    let w = g.width;
    let dict = dict_of(blocks);
    let qpieces = dict.map_values(|nm: Seq<u8>| quote_name(nm));
    let names_sec = join_commas(qpieces);
    let slots = slots_of(blocks, dict);
    let spieces = slots.map_values(|v: u16| u16_digits(v as int));
    let slots_sec = join_commas(spieces);
    let e = encode_spec(blocks);
    assert(blocks.len() == crate::objects::volume(w));
    assert(blocks.len() >= 27) by {
        assert((w as int) * (w as int) * (w as int) >= 27) by (nonlinear_arith)
            requires w >= 3;
    }
    lemma_dict_entries_wire_safe(blocks, blocks.len() as int);
    lemma_dict_len_le(blocks, blocks.len() as int);

    // slot values are in range and correct per block
    assert forall|i: int| 0 <= i < blocks.len() implies 0 <= slot_spec(dict, #[trigger] blocks[i])
        <= dict.len() by {
        lemma_slot_spec_props(blocks, dict, i);
    }

    // the slot pieces are non-empty digit strings
    assert forall|i: int|
        0 <= i < spieces.len() implies parse_u16(#[trigger] spieces[i]) == Some(slots[i]) by {
        lemma_slot_spec_props(blocks, dict, i);
        assert(slots[i] as int == slot_spec(dict, blocks[i]));
        lemma_u16_digits_parse(slots[i] as int);
    }
    assert forall|i: int|
        0 <= i < spieces.len() implies forall|j: int|
        0 <= j < (#[trigger] spieces[i]).len() ==> (#[trigger] spieces[i][j]) != COMMA by {
        lemma_u16_digits_parse(slots[i] as int);
        assert(all_digits(spieces[i]));
        assert forall|j: int| 0 <= j < spieces[i].len() implies spieces[i][j] != COMMA by {
            assert(is_digit(spieces[i][j]));
        }
    }
    lemma_split_join(spieces);
    assert(parse_slots(slots_sec) == Some(slots)) by {
        assert(split_commas(slots_sec) == spieces);
        assert(Seq::new(spieces.len(), |i: int| parse_u16(spieces[i]).unwrap()) =~= slots);
    }

    // layout of the encoded message
    let body = seq![OPEN_BRACKET] + names_sec + seq![CLOSE_BRACKET, OPEN_BRACKET] + slots_sec
        + seq![CLOSE_BRACKET];
    assert(e =~= seq![KIND_SCAN] + body);
    assert(e.subrange(1, e.len() as int) =~= body);
    let p = 1 + names_sec.len() as int;
    assert(body[0] == OPEN_BRACKET);
    assert(body[body.len() - 1] == CLOSE_BRACKET);
    assert(body[p] == CLOSE_BRACKET && body[p + 1] == OPEN_BRACKET);

    // no pair before the boundary
    lemma_join_quoted_pair_free(dict);
    lemma_pair_free_concat(seq![OPEN_BRACKET], names_sec);
    let prefix = seq![OPEN_BRACKET] + names_sec;
    assert(prefix.len() == p);
    lemma_find_boundary_props(body, 0);
    match find_boundary_from(body, 0) {
        None => {
            assert(p < body.len() - 1);
            assert(false);
        },
        Some(bp) => {
            if bp > p {
                assert(false);
            }
            if bp < p {
                if bp + 1 < p {
                    assert(body[bp] == prefix[bp] && body[bp + 1] == prefix[bp + 1]);
                    assert(false);
                } else {
                    assert(body[bp + 1] == CLOSE_BRACKET);
                    assert(false);
                }
            }
            assert(bp == p);
        },
    }
    assert(find_boundary_from(body, 0) == Some(p));
    assert(scan_body_parts(body) matches Some((ns, ss)) && ns == names_sec && ss == slots_sec) by {
        assert(body.subrange(1, p) =~= names_sec);
        assert(body.subrange(p + 2, body.len() - 1) =~= slots_sec);
    }
    assert(parse_report(e) == Ok::<ReportSpec, ProtocolError>(ReportSpec::Scan(parse_names(names_sec), slots)));
    let names = parse_names(names_sec);

    // dictionary references resolve
    if dict.len() > 0 {
        assert forall|t: int|
            0 <= t < qpieces.len() implies forall|j: int|
            0 <= j < (#[trigger] qpieces[t]).len() ==> (#[trigger] qpieces[t][j]) != COMMA by {
            assert(wire_safe(dict[t]));
            let q = qpieces[t];
            assert(q == quote_name(dict[t]));
            assert forall|j: int| 0 <= j < q.len() implies q[j] != COMMA by {
                if j == 0 || j == q.len() - 1 {
                    assert(q[j] == QUOTE);
                } else {
                    assert(q[j] == dict[t][j - 1]);
                }
            }
        }
        lemma_split_join(qpieces);
        assert(names =~= dict) by {
            assert(split_commas(names_sec) == qpieces);
            assert forall|t: int| 0 <= t < dict.len() implies names[t] == dict[t] by {
                assert(names[t] == strip_quotes(qpieces[t]));
                assert(wire_safe(dict[t]));
                lemma_strip_quote_name(dict[t]);
            }
        }
    }

    // width check and dangling-reference check pass
    assert(slots.len() == crate::objects::volume(w));
    assert forall|i: int| 0 <= i < slots.len() implies !(#[trigger] slots[i] > names.len()) by {
        lemma_slot_spec_props(blocks, dict, i);
        if slots[i] > 0 {
            assert(dict.len() > 0);
            assert(names.len() == dict.len());
        }
    }
    assert(report_outcome(w, e) == Ok::<ReportSpec, ProtocolError>(ReportSpec::Scan(names, slots)));

    // re-applying the decoded scan reproduces the grid
    assert forall|i: int|
        0 <= i < blocks.len() implies applied_block_ok(
        blocks[i],
        #[trigger] blocks[i],
        names,
        slots[i],
    ) by {
        lemma_slot_spec_props(blocks, dict, i);
        match blocks[i].name {
            Identity::Air => {
                assert(slots[i] == 0);
            },
            Identity::Named(nm) => {
                let idx = dict_index_from(dict, nm@, 0);
                assert(slots[i] as int == idx + 1);
                assert(dict[idx] == nm@);
                assert(names[slots[i] - 1] == nm@);
            },
        }
    }
}

/// The dictionary never outgrows the number of blocks.
proof fn lemma_dict_len_le(blocks: Seq<Block>, n: int)
    requires
        0 <= n <= blocks.len(),
    ensures
        dict_upto(blocks, n).len() <= n,
    decreases n,
{
    if n > 0 {
        lemma_dict_len_le(blocks, n - 1);
    }
}

/// A block's wire slot: `0` exactly for air, else a resolvable 1-based
/// dictionary position holding the block's own name.
proof fn lemma_slot_spec_props(blocks: Seq<Block>, dict: Seq<Seq<u8>>, i: int)
    requires
        0 <= i < blocks.len(),
        dict == dict_of(blocks),
    ensures
        0 <= slot_spec(dict, blocks[i]) <= dict.len(),
        blocks[i].name matches Identity::Air ==> slot_spec(dict, blocks[i]) == 0,
        blocks[i].name matches Identity::Named(nm) ==> ({
            let idx = dict_index_from(dict, nm@, 0);
            &&& slot_spec(dict, blocks[i]) == idx + 1
            &&& 0 <= idx < dict.len()
            &&& dict[idx] == nm@
        }),
{
    match blocks[i].name {
        Identity::Air => {},
        Identity::Named(nm) => {
            lemma_dict_contains_name(blocks, i, blocks.len() as int);
            lemma_dict_index_props(dict, nm@, 0);
            if dict_index_from(dict, nm@, 0) == dict.len() {
                let t = choose|t: int| 0 <= t < dict.len() && dict[t] == nm@;
                assert(dict[t] == nm@);
                assert(false);
            }
        },
    }
}

} // verus!
