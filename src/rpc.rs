//! Request errors, request parameters and the small request handlers.
use vstd::prelude::*;
use vstd::utf8::encode_utf8;
use crate::bytes::{
    hex_digit_value, hex_prefix_end, is_hex_digit, prefixed_hex, strip_hex_prefixes, to_prefixed_hex,
    Uint256,
};
use crate::tree::{BlockNumber, UbtState};
use vstd::slice::slice_subrange;

verus! {

/// Errors a request can end in.
#[derive(Debug, Clone, PartialEq, Eq)]
pub enum RpcErr {
    /// Malformed or out-of-range client input.
    BadParams(String),
    /// A required argument is absent.
    MissingParam(String),
    /// A failure inside the node.
    Internal(String),
    /// The method is not available.
    MethodNotFound(String),
    /// The subsystem is not part of this node.
    UnsupportedFork(String),
}

/// One decoded request parameter.
#[derive(Debug, Clone, PartialEq, Eq)]
pub enum ParamValue {
    Null,
    /// A non-negative integer that fits in 64 bits.
    Unsigned(u64),
    Text(String),
    /// Any other value (negative or fractional number, bool, array, object).
    Other,
}

/// The parameters as a sequence, if given.
pub open spec fn params_view(p: Option<Vec<ParamValue>>) -> Option<Seq<ParamValue>> {
    match p {
        Some(v) => Some(v@),
        None => None,
    }
}

pub(crate) fn bad_params(msg: &str) -> (r: RpcErr)
    ensures
        r is BadParams,
{
    RpcErr::BadParams(msg.to_owned())
}

/// Most blocks one state-delta request may span.
pub const MAX_DELTA_BLOCKS: u64 = 100;

/// The number that hex digits spell, most significant first.
pub open spec fn hex_digits_value(d: Seq<u8>) -> int
    decreases d.len(),
{
    if d.len() == 0 {
        0
    } else {
        hex_digits_value(d.drop_last()) * 16 + hex_digit_value(d.last())
    }
}

/// True when every byte is a hex digit.
pub open spec fn all_hex_digits(d: Seq<u8>) -> bool {
    forall|i: int| 0 <= i < d.len() ==> is_hex_digit(#[trigger] d[i])
}

/// Base-16 reading of text: an optional `+`, then one or more hex digits
/// of either case whose value fits in 64 bits.
pub open spec fn parse_radix16(b: Seq<u8>) -> Option<u64> {
    let d = if b.len() > 0 && b[0] == 43 {
        b.drop_first()
    } else {
        b
    };
    if d.len() > 0 && all_hex_digits(d) && hex_digits_value(d) <= u64::MAX {
        Some(hex_digits_value(d) as u64)
    } else {
        None
    }
}

proof fn lemma_hex_value_nonneg(d: Seq<u8>)
    requires
        all_hex_digits(d),
    ensures
        0 <= hex_digits_value(d),
    decreases d.len(),
{
    if d.len() > 0 {
        lemma_hex_value_nonneg(d.drop_last());
        assert(is_hex_digit(d[d.len() - 1]));
    }
}

proof fn lemma_hex_value_prefix(d: Seq<u8>, k: int)
    requires
        all_hex_digits(d),
        0 <= k <= d.len(),
    ensures
        hex_digits_value(d.subrange(0, k)) <= hex_digits_value(d),
    decreases d.len() - k,
{
    if k < d.len() {
        lemma_hex_value_prefix(d, k + 1);
        assert(d.subrange(0, k + 1).drop_last() =~= d.subrange(0, k));
        assert(is_hex_digit(d[k]));
        lemma_hex_value_nonneg(d.subrange(0, k));
    } else {
        assert(d.subrange(0, k) =~= d);
    }
}

fn hex_digit(c: u8) -> (r: Option<u64>)
    ensures
        r is Some <==> is_hex_digit(c),
        r is Some ==> r->Some_0 == hex_digit_value(c) && r->Some_0 < 16,
{
    if 48 <= c && c <= 57 {
        Some((c - 48) as u64)
    } else if 97 <= c && c <= 102 {
        Some((c - 87) as u64)
    } else if 65 <= c && c <= 70 {
        Some((c - 55) as u64)
    } else {
        None
    }
}

/// Reads text as `parse_radix16` describes.
pub fn parse_hex_u64(b: &[u8]) -> (r: Option<u64>)
    ensures
        r == parse_radix16(b@),
{
    let n = b.len();
    let start: usize = if n > 0 && b[0] == 43 {
        1
    } else {
        0
    };
    let ghost d = if b@.len() > 0 && b@[0] == 43 {
        b@.drop_first()
    } else {
        b@
    };
    assert(d =~= b@.subrange(start as int, n as int));
    if start >= n {
        return None;
    }
    assert(parse_radix16(b@) == (if all_hex_digits(d) && hex_digits_value(d) <= u64::MAX {
        Some(hex_digits_value(d) as u64)
    } else {
        None
    }));
    let mut v: u64 = 0;
    let mut i: usize = start;
    while i < n
        invariant
            start <= i <= n,
            n == b@.len(),
            d == b@.subrange(start as int, n as int),
            parse_radix16(b@) == (if all_hex_digits(d) && hex_digits_value(d) <= u64::MAX {
                Some(hex_digits_value(d) as u64)
            } else {
                None
            }),
            v as int == hex_digits_value(d.subrange(0, i - start)),
            forall|t: int| 0 <= t < i - start ==> is_hex_digit(#[trigger] d[t]),
        decreases n - i,
    {
        let dv = match hex_digit(b[i]) {
            Some(x) => x,
            None => {
                assert(!is_hex_digit(d[i - start]));
                assert(!all_hex_digits(d));
                return None;
            },
        };
        let ghost k = i - start;
        assert(d.subrange(0, k + 1).drop_last() =~= d.subrange(0, k));
        assert(d.subrange(0, k + 1).last() == b@[i as int]);
        assert(hex_digits_value(d.subrange(0, k + 1)) == v * 16 + dv);
        if v > (u64::MAX - dv) / 16 {
            proof {
                assert(v * 16 + dv > u64::MAX) by (nonlinear_arith)
                    requires v > (u64::MAX - dv) / 16, dv < 16;
                if all_hex_digits(d) {
                    lemma_hex_value_prefix(d, k + 1);
                }
                assert(parse_radix16(b@) is None);
            }
            return None;
        }
        assert(v * 16 + dv <= u64::MAX) by (nonlinear_arith)
            requires v <= (u64::MAX - dv) / 16, dv < 16;
        v = v * 16 + dv;
        i = i + 1;
    }
    assert(d.subrange(0, n - start) =~= d);
    Some(v)
}

/// The block number a parameter names: an integer, or hex text after any
/// leading `0x`.
pub open spec fn block_number_param(v: ParamValue) -> Option<u64> {
    match v {
        ParamValue::Unsigned(n) => Some(n),
        ParamValue::Text(s) => parse_radix16(strip_hex_prefixes(encode_utf8(s@))),
        _ => None,
    }
}

/// Read a block number given as an integer or as hex text.
pub fn parse_block_number(value: &ParamValue) -> (r: Result<u64, RpcErr>)
    ensures
        r is Ok <==> block_number_param(*value) is Some,
        r is Ok ==> r->Ok_0 == block_number_param(*value)->Some_0,
        r is Err ==> r->Err_0 is BadParams,
{
    match value {
        ParamValue::Unsigned(n) => Ok(*n),
        ParamValue::Text(s) => {
            let b = s.as_str().as_bytes();
            let start = hex_prefix_end(b);
            match parse_hex_u64(slice_subrange(b, start, b.len())) {
                Some(n) => Ok(n),
                None => Err(bad_params("Invalid block number format")),
            }
        },
        _ => Err(bad_params("block_number must be a number or hex string")),
    }
}

/// The block range that state-delta parameters name: `Err(true)` when an
/// argument is missing, `Err(false)` when one is malformed, or the range is
/// inverted or spans more than 100 blocks.
pub open spec fn delta_range(params: Option<Seq<ParamValue>>) -> Result<(u64, u64), bool> {
    match params {
        None => Err(true),
        Some(p) => if p.len() == 0 {
            Err(true)
        } else {
            match block_number_param(p[0]) {
                None => Err(false),
                Some(from) => if p.len() < 2 {
                    Err(true)
                } else {
                    match block_number_param(p[1]) {
                        None => Err(false),
                        Some(to) => if to < from || to - from >= MAX_DELTA_BLOCKS {
                            Err(false)
                        } else {
                            Ok((from, to))
                        },
                    }
                },
            }
        },
    }
}

/// A single storage slot change.
#[derive(Debug, Clone, Copy, PartialEq, Eq)]
pub struct StorageDelta {
    pub address: [u8; 20],
    pub slot: [u8; 32],
    pub value: Uint256,
}

/// Response of a state-delta request.
#[derive(Debug, Clone)]
pub struct GetStateDeltaResponse {
    pub from_block: u64,
    pub to_block: u64,
    pub deltas: Vec<StorageDelta>,
}

/// A request for the storage changes over a range of blocks. The range is
/// validated; the changes themselves are not tracked yet.
#[allow(dead_code)]
pub struct GetStateDeltaRequest {
    from_block: u64,
    to_block: u64,
}

impl GetStateDeltaRequest {
    /// The first block of the range.
    pub closed spec fn from_spec(&self) -> u64 {
        self.from_block
    }

    /// The last block of the range.
    pub closed spec fn to_spec(&self) -> u64 {
        self.to_block
    }

    /// Read the first and last block of the range, as `delta_range` says.
    pub fn parse(params: &Option<Vec<ParamValue>>) -> (r: Result<Self, RpcErr>)
        ensures
            match delta_range(params_view(*params)) {
                Ok((f, t)) => r is Ok && r->Ok_0.from_spec() == f && r->Ok_0.to_spec() == t,
                Err(missing) => r is Err && (if missing {
                    r->Err_0 is MissingParam
                } else {
                    r->Err_0 is BadParams
                }),
            },
    {
        let p = match params {
            Some(p) => p,
            None => {
                return Err(RpcErr::MissingParam("params".to_owned()));
            },
        };
        if p.len() == 0 {
            return Err(RpcErr::MissingParam("from_block".to_owned()));
        }
        let from_block = match parse_block_number(&p[0]) {
            Ok(n) => n,
            Err(e) => {
                return Err(e);
            },
        };
        if p.len() < 2 {
            return Err(RpcErr::MissingParam("to_block".to_owned()));
        }
        let to_block = match parse_block_number(&p[1]) {
            Ok(n) => n,
            Err(e) => {
                return Err(e);
            },
        };
        if to_block < from_block {
            return Err(bad_params("to_block must be >= from_block"));
        }
        if to_block - from_block >= MAX_DELTA_BLOCKS {
            return Err(bad_params("Block count exceeds maximum of 100 blocks"));
        }
        Ok(GetStateDeltaRequest { from_block, to_block })
    }

    /// Always fails: historical state deltas are not tracked yet.
    pub fn handle(&self) -> (r: Result<GetStateDeltaResponse, RpcErr>)
        ensures
            r is Err && r->Err_0 is MethodNotFound,
    {
        Err(
            RpcErr::MethodNotFound(
                "pir_getStateDelta: not yet implemented, requires historical state delta tracking".to_owned(),
            ),
        )
    }
}

/// A request for the tree root at a block; only the current head's root
/// is kept.
pub struct GetRootRequest {
    block_number: BlockNumber,
}

impl GetRootRequest {
    /// The block asked for.
    pub closed spec fn block_spec(&self) -> BlockNumber {
        self.block_number
    }

    /// Read the block number, the one required parameter.
    pub fn parse(params: &Option<Vec<ParamValue>>) -> (r: Result<Self, RpcErr>)
        ensures
            match params_view(*params) {
                None => r is Err && r->Err_0 is MissingParam,
                Some(p) => if p.len() == 0 {
                    r is Err && r->Err_0 is MissingParam
                } else {
                    match block_number_param(p[0]) {
                        Some(n) => r is Ok && r->Ok_0.block_spec() == n,
                        None => r is Err && r->Err_0 is BadParams,
                    }
                },
            },
    {
        let p = match params {
            Some(p) => p,
            None => {
                return Err(RpcErr::MissingParam("params".to_owned()));
            },
        };
        if p.len() == 0 {
            return Err(RpcErr::MissingParam("block_number".to_owned()));
        }
        match parse_block_number(&p[0]) {
            Ok(block_number) => Ok(GetRootRequest { block_number }),
            Err(e) => Err(e),
        }
    }

    /// The root as `0x`-prefixed hex, when the tree is present, synced and
    /// its head is the block asked for. An absent tree is `UnsupportedFork`,
    /// a tree without a head `Internal`, another block `BadParams`.
    pub fn handle(&self, tree: &mut Option<UbtState>) -> (r: Result<String, RpcErr>)
        ensures
            match *old(tree) {
                None => r is Err && r->Err_0 is UnsupportedFork,
                Some(s) => match s.head() {
                    None => r is Err && r->Err_0 is Internal,
                    Some(h) => if h != self.block_spec() {
                        r is Err && r->Err_0 is BadParams
                    } else {
                        r is Ok && r->Ok_0@ == prefixed_hex(s.root_spec())
                    },
                },
            },
            match (*old(tree), *final(tree)) {
                (None, None) => true,
                (Some(a), Some(b)) => b.values() == a.values() && b.stems() == a.stems() && b.head() == a.head()
                    && b.rebuilding_flag() == a.rebuilding_flag(),
                _ => false,
            },
    {
        match tree {
            None => Err(RpcErr::UnsupportedFork("the tree subsystem is not enabled".to_owned())),
            Some(state) => {
                match state.current_head() {
                    None => Err(RpcErr::Internal("tree not initialized".to_owned())),
                    Some(head) => {
                        if head != self.block_number {
                            Err(bad_params("the tree only has the root of the current head block"))
                        } else {
                            let root = state.root();
                            Ok(to_prefixed_hex(root.as_slice()))
                        }
                    },
                }
            },
        }
    }
}

} // verus!
