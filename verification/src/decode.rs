//! Stream decoding (ISO 32000-2, 7.4.1): the `/Filter` chain of a stream
//! dictionary with its `/DecodeParms`, applied stage by stage with the
//! decoders of [`crate::filters`]. `LZWDecode` (7.4.4) and the image
//! filters (7.4.6 to 7.4.9) report [`Error::Unsupported`]; a `Crypt`
//! filter (7.4.10) is the identity here.

use crate::bytes::bytes_eq;
use crate::filters::{
    apply_predictor, ascii85_decode, limit, DEFAULT_MAX_OUTPUT, ascii_hex_decode, copy_bytes, filter_error, flate_decode,
    run_length_decode, spec_apply_predictor, spec_ascii85_decode, spec_ascii_hex_decode,
    spec_flate_decode, spec_run_length_decode, DecodeLimits, Predictor, MAX_COLORS,
};
use crate::object::{dict_get, utf8_lossy, Dict, Name, Object, ObjectView};
use crate::Error;
use vstd::prelude::*;
use vstd::string::StringSliceAdditionalSpecFns;

verus! {

// ---------------------------------------------------------------------------
// Filter chains (ISO 32000-2, 7.4.1)
// ---------------------------------------------------------------------------

/// How an object met in a stream dictionary is followed: a reference is
/// replaced by the object it designates.
pub trait Resolve {
    /// What following `o` gives; `None` when following it fails.
    spec fn resolved(&self, o: ObjectView) -> Option<ObjectView>;

    /// Follow `o`.
    fn resolve(&self, o: &Object) -> (r: Result<Object, Error>)
        ensures
            match self.resolved(o@) {
                Some(v) => r matches Ok(x) && x@ == v,
                None => r is Err,
            },
    ;
}

/// Objects taken as they stand: references are not followed (they are
/// then no filter name, no parameter dictionary).
pub struct Direct;

impl Resolve for Direct {
    open spec fn resolved(&self, o: ObjectView) -> Option<ObjectView> {
        Some(o)
    }

    fn resolve(&self, o: &Object) -> (r: Result<Object, Error>) {
        Ok(o.clone())
    }
}

/// Why a stream could not be decoded.
pub enum DecodeFailure {
    /// Following a reference failed (the resolver's error is passed on).
    Unresolved,
    /// [`Error::Filter`] for this filter.
    Filter(Seq<char>),
    /// [`Error::Unsupported`] naming this feature.
    Unsupported(Seq<char>),
    /// [`Error::LimitExceeded`] for this output.
    Limit(Seq<char>),
}

/// `e` is the error reported for `f` under `limits`.
pub open spec fn decode_failure_is(e: Error, f: DecodeFailure, limits: DecodeLimits) -> bool {
    match f {
        DecodeFailure::Unresolved => true,
        DecodeFailure::Filter(name) => e matches Error::Filter { filter, .. } && filter@ == name,
        DecodeFailure::Unsupported(what) => e matches Error::Unsupported { feature } && feature@ == what,
        DecodeFailure::Limit(what) => e matches Error::LimitExceeded { limit, what: w } && limit
            == limits.max_output && w@ == what,
    }
}

/// `r` is what `x` says: the decoded bytes, or the error.
pub open spec fn decoded_result(r: Result<Vec<u8>, Error>, x: Result<Seq<u8>, DecodeFailure>, limits: DecodeLimits) -> bool {
    match x {
        Ok(v) => r matches Ok(out) && out@ == v,
        Err(f) => r matches Err(e) && decode_failure_is(e, f, limits),
    }
}

/// An integer parameter of `parms`, `default` when missing or not an
/// integer once followed.
pub open spec fn int_parm<R: Resolve>(parms: Seq<(Seq<u8>, ObjectView)>, key: Seq<u8>, default: i64, res: &R) -> Result<i64, DecodeFailure> {
    match dict_get(parms, key) {
        None => Ok(default),
        Some(v) => match res.resolved(v) {
            None => Err(DecodeFailure::Unresolved),
            Some(ObjectView::Integer(i)) => Ok(i),
            Some(_) => Ok(default),
        },
    }
}

/// The predictor of `/DecodeParms` applied to inflated data (ISO 32000-2,
/// table 8): `/Predictor` 1 leaves the data alone, 2 and 10 to 15 undo a
/// TIFF or PNG predictor with `/Colors` 1 to 256, `/BitsPerComponent` 1,
/// 2, 4, 8 or 16 and at least one of `/Columns`.
pub open spec fn predicted<R: Resolve>(data: Seq<u8>, parms: Option<Seq<(Seq<u8>, ObjectView)>>, res: &R) -> Result<Seq<u8>, DecodeFailure> {
    match parms {
        None => Ok(data),
        Some(p) => match int_parm(p, "Predictor".spec_bytes(), 1, res) {
            Err(f) => Err(f),
            Ok(1) => Ok(data),
            Ok(pred) => if !(pred == 2 || 10 <= pred <= 15) {
                Err(DecodeFailure::Filter("Predictor"@))
            } else {
                match int_parm(p, "Colors".spec_bytes(), 1, res) {
                    Err(f) => Err(f),
                    Ok(colors) => if !(1 <= colors <= MAX_COLORS) {
                        Err(DecodeFailure::Filter("Predictor"@))
                    } else {
                        match int_parm(p, "BitsPerComponent".spec_bytes(), 8, res) {
                            Err(f) => Err(f),
                            Ok(bits) => if !(bits == 1 || bits == 2 || bits == 4 || bits == 8
                                || bits == 16) {
                                Err(DecodeFailure::Filter("Predictor"@))
                            } else {
                                match int_parm(p, "Columns".spec_bytes(), 1, res) {
                                    Err(f) => Err(f),
                                    Ok(columns) => if !(1 <= columns <= usize::MAX) {
                                        Err(DecodeFailure::Filter("Predictor"@))
                                    } else {
                                        match spec_apply_predictor(
                                            data,
                                            Predictor {
                                                predictor: pred as u8,
                                                colors: colors as usize,
                                                bits_per_component: bits as usize,
                                                columns: columns as usize,
                                            },
                                        ) {
                                            Some(out) => Ok(out),
                                            None => Err(DecodeFailure::Filter("Predictor"@)),
                                        }
                                    },
                                }
                            },
                        }
                    },
                }
            },
        },
    }
}

/// Whether a filter takes predictor parameters: Flate and LZW.
pub open spec fn spec_takes_predictor(name: Seq<u8>) -> bool {
    name == "FlateDecode".spec_bytes() || name == "Fl".spec_bytes() || name
        == "LZWDecode".spec_bytes() || name == "LZW".spec_bytes()
}

/// One filter stage on `data` (ISO 32000-2, 7.4; the abbreviated names of
/// inline images, table 92, are taken too).
pub open spec fn stage_output<R: Resolve>(name: Seq<u8>, parms: Option<Seq<(Seq<u8>, ObjectView)>>, data: Seq<u8>, res: &R, limits: DecodeLimits) -> Result<Seq<u8>, DecodeFailure> {
    if name == "FlateDecode".spec_bytes() || name == "Fl".spec_bytes() {
        match spec_flate_decode(data, limits) {
            Ok(x) => predicted(x, parms, res),
            Err(true) => Err(DecodeFailure::Limit("inflated FlateDecode data"@)),
            Err(false) => Err(DecodeFailure::Filter("FlateDecode"@)),
        }
    } else if name == "LZWDecode".spec_bytes() || name == "LZW".spec_bytes() {
        Err(DecodeFailure::Unsupported("LZWDecode filter (ISO 32000-2, 7.4.4)"@))
    } else if name == "ASCIIHexDecode".spec_bytes() || name == "AHx".spec_bytes() {
        Ok(spec_ascii_hex_decode(data))
    } else if name == "ASCII85Decode".spec_bytes() || name == "A85".spec_bytes() {
        match spec_ascii85_decode(data) {
            Some(x) => Ok(x),
            None => Err(DecodeFailure::Filter("ASCII85Decode"@)),
        }
    } else if name == "RunLengthDecode".spec_bytes() || name == "RL".spec_bytes() {
        if spec_run_length_decode(data).len() <= limits.max_output {
            Ok(spec_run_length_decode(data))
        } else {
            Err(DecodeFailure::Limit("RunLengthDecode output"@))
        }
    } else if name == "Crypt".spec_bytes() {
        Ok(data)
    } else if name == "CCITTFaxDecode".spec_bytes() || name == "CCF".spec_bytes() {
        Err(DecodeFailure::Unsupported("CCITTFaxDecode filter (ISO 32000-2, 7.4.6)"@))
    } else if name == "JBIG2Decode".spec_bytes() {
        Err(DecodeFailure::Unsupported("JBIG2Decode filter (ISO 32000-2, 7.4.7)"@))
    } else if name == "DCTDecode".spec_bytes() || name == "DCT".spec_bytes() {
        Err(DecodeFailure::Unsupported("DCTDecode filter (ISO 32000-2, 7.4.8)"@))
    } else if name == "JPXDecode".spec_bytes() {
        Err(DecodeFailure::Unsupported("JPXDecode filter (ISO 32000-2, 7.4.9)"@))
    } else {
        Err(DecodeFailure::Filter(utf8_lossy(name)))
    }
}

/// The names of an array of filters, each followed; the first failure
/// stops.
pub open spec fn filter_names<R: Resolve>(items: Seq<ObjectView>, res: &R) -> Result<Seq<Seq<u8>>, DecodeFailure>
    decreases items.len(),
{
    if items.len() == 0 {
        Ok(Seq::empty())
    } else {
        match filter_names(items.drop_last(), res) {
            Err(f) => Err(f),
            Ok(names) => match res.resolved(items.last()) {
                None => Err(DecodeFailure::Unresolved),
                Some(ObjectView::Name(n)) => Ok(names.push(n)),
                Some(_) => Err(DecodeFailure::Filter("/Filter"@)),
            },
        }
    }
}

/// The parameter dictionaries of an array, each followed; what is not a
/// dictionary stands for no parameters.
pub open spec fn parm_dicts<R: Resolve>(items: Seq<ObjectView>, res: &R) -> Result<Seq<Option<Seq<(Seq<u8>, ObjectView)>>>, DecodeFailure>
    decreases items.len(),
{
    if items.len() == 0 {
        Ok(Seq::empty())
    } else {
        match parm_dicts(items.drop_last(), res) {
            Err(f) => Err(f),
            Ok(ps) => match res.resolved(items.last()) {
                None => Err(DecodeFailure::Unresolved),
                Some(ObjectView::Dict(d)) => Ok(ps.push(Some(d))),
                Some(_) => Ok(ps.push(None)),
            },
        }
    }
}

/// The first filter that takes predictor parameters, or the length.
pub open spec fn first_predictor_filter(names: Seq<Seq<u8>>) -> int
    decreases names.len(),
{
    if names.len() == 0 {
        0
    } else if spec_takes_predictor(names[0]) {
        0
    } else {
        1 + first_predictor_filter(names.drop_first())
    }
}

/// The filters of a stream with their parameters, in application order
/// (ISO 32000-2, 7.4.1: `/Filter` is a name or an array of names,
/// `/DecodeParms`, or `/DP`, a dictionary or an array with one item per
/// filter). A lone parameter dictionary next to several filters belongs to
/// the first one that takes a predictor.
pub open spec fn spec_filter_chain<R: Resolve>(d: Seq<(Seq<u8>, ObjectView)>, res: &R) -> Result<Seq<(Seq<u8>, Option<Seq<(Seq<u8>, ObjectView)>>)>, DecodeFailure> {
    match filter_list(d, res) {
        Err(f) => Err(f),
        Ok(None) => Ok(Seq::empty()),
        Ok(Some(names)) => match parm_list(d, res) {
            Err(f) => Err(f),
            Ok(ps) => {
                let pos = first_predictor_filter(names);
                let placed = if ps.len() == 1 && names.len() > 1 && pos < names.len() {
                    Seq::new(names.len(), |i: int| if i == pos { ps[0] } else { None })
                } else {
                    ps
                };
                Ok(
                    Seq::new(
                        names.len(),
                        |i: int|
                            (
                                names[i],
                                if i < placed.len() {
                                    placed[i]
                                } else {
                                    None
                                },
                            ),
                    ),
                )
            },
        },
    }
}

/// The filter names of a stream dictionary; `None` when it has no filter
/// (no `/Filter`, or `null`).
pub open spec fn filter_list<R: Resolve>(d: Seq<(Seq<u8>, ObjectView)>, res: &R) -> Result<Option<Seq<Seq<u8>>>, DecodeFailure> {
    match dict_get(d, "Filter".spec_bytes()) {
        None => Ok(None),
        Some(v) => match res.resolved(v) {
            None => Err(DecodeFailure::Unresolved),
            Some(ObjectView::Null) => Ok(None),
            Some(ObjectView::Name(n)) => Ok(Some(seq![n])),
            Some(ObjectView::Array(items)) => match filter_names(items, res) {
                Ok(names) => Ok(Some(names)),
                Err(f) => Err(f),
            },
            Some(_) => Err(DecodeFailure::Filter("/Filter"@)),
        },
    }
}

/// The parameter dictionaries as written (`/DecodeParms`, else `/DP`):
/// one dictionary, or one entry per item of an array; missing, `null` or
/// anything else means none.
pub open spec fn parm_list<R: Resolve>(d: Seq<(Seq<u8>, ObjectView)>, res: &R) -> Result<Seq<Option<Seq<(Seq<u8>, ObjectView)>>>, DecodeFailure> {
    let entry = match dict_get(d, "DecodeParms".spec_bytes()) {
        Some(v) => Some(v),
        None => dict_get(d, "DP".spec_bytes()),
    };
    match entry {
        None => Ok(Seq::empty()),
        Some(v) => match res.resolved(v) {
            None => Err(DecodeFailure::Unresolved),
            Some(ObjectView::Dict(x)) => Ok(seq![Some(x)]),
            Some(ObjectView::Array(items)) => parm_dicts(items, res),
            Some(_) => Ok(Seq::empty()),
        },
    }
}

/// A chain as sequences.
pub open spec fn chain_view(v: Seq<(Name, Option<Dict>)>) -> Seq<(Seq<u8>, Option<Seq<(Seq<u8>, ObjectView)>>)> {
    Seq::new(
        v.len(),
        |i: int|
            (
                v[i].0.0@,
                match v[i].1 {
                    Some(d) => Some(d@),
                    None => None,
                },
            ),
    )
}

fn filter_name_error(message: &str) -> (e: Error)
    ensures
        e matches Error::Filter { filter: f, .. } && f@ == "/Filter"@,
{
    filter_error("/Filter", message)
}

/// The filter names of a stream dictionary (see [`filter_list`]).
fn filter_names_of<R: Resolve>(dict: &Dict, res: &R) -> (r: Result<Option<Vec<Name>>, Error>)
    ensures
        match filter_list(dict@, res) {
            Ok(None) => r matches Ok(None),
            Ok(Some(names)) => r matches Ok(Some(v)) && v@.len() == names.len() && forall|i: int|
                0 <= i < names.len() ==> #[trigger] v@[i].0@ == names[i],
            Err(DecodeFailure::Unresolved) => r is Err,
            Err(DecodeFailure::Filter(n)) => r matches Err(Error::Filter { filter, .. }) && filter@ == n,
            Err(_) => false,
        },
{
    let entry = match dict.get(&Name::new("Filter")) {
        None => return Ok(None),
        Some(v) => v,
    };
    let value = match res.resolve(entry) {
        Ok(v) => v,
        Err(e) => return Err(e),
    };
    match value {
        Object::Null => Ok(None),
        Object::Name(n) => {
            let mut v: Vec<Name> = Vec::new();
            v.push(n);
            Ok(Some(v))
        },
        Object::Array(items) => {
            let ghost views = value@->Array_0;
            proof {
                crate::object::lemma_items_view(items@);
            }
            let mut names: Vec<Name> = Vec::new();
            let mut k: usize = 0;
            assert(filter_list(dict@, res) == match filter_names(views, res) {
                Ok(ns) => Ok(Some(ns)),
                Err(f) => Err::<Option<Seq<Seq<u8>>>, DecodeFailure>(f),
            });
            while k < items.len()
                invariant
                    filter_list(dict@, res) == match filter_names(views, res) {
                        Ok(ns) => Ok(Some(ns)),
                        Err(f) => Err::<Option<Seq<Seq<u8>>>, DecodeFailure>(f),
                    },
                    k <= items@.len(),
                    views == crate::object::items_view(items@),
                    views.len() == items@.len(),
                    forall|j: int| 0 <= j < items@.len() ==> #[trigger] views[j] == items@[j]@,
                    filter_names(views.take(k as int), res) matches Ok(ns) && names@.len() == ns.len()
                        && forall|i: int| 0 <= i < ns.len() ==> #[trigger] names@[i].0@ == ns[i],
                decreases items@.len() - k,
            {
                assert(views.take(k + 1).drop_last() =~= views.take(k as int));
                assert(views.take(k + 1).last() == items@[k as int]@);
                match res.resolve(&items[k]) {
                    Err(e) => {
                        proof { lemma_filter_names_err(views, k + 1, res); }
                        return Err(e);
                    },
                    Ok(Object::Name(n)) => {
                        names.push(n);
                    },
                    Ok(_) => {
                        proof { lemma_filter_names_err(views, k + 1, res); }
                        return Err(filter_name_error("array holds something that is not a filter name"));
                    },
                }
                k = k + 1;
            }
            assert(views.take(items@.len() as int) =~= views);
            Ok(Some(names))
        },
        _ => Err(filter_name_error("must be a name or an array of names")),
    }
}

proof fn lemma_filter_names_err<R: Resolve>(s: Seq<ObjectView>, n: int, res: &R)
    requires
        0 <= n <= s.len(),
        filter_names(s.take(n), res) is Err,
    ensures
        filter_names(s, res) == filter_names(s.take(n), res),
    decreases s.len() - n,
{
    if n < s.len() {
        assert(s.take(n + 1).drop_last() =~= s.take(n));
        lemma_filter_names_err(s, n + 1, res);
    } else {
        assert(s.take(n) =~= s);
    }
}

proof fn lemma_parm_dicts_err<R: Resolve>(s: Seq<ObjectView>, n: int, res: &R)
    requires
        0 <= n <= s.len(),
        parm_dicts(s.take(n), res) is Err,
    ensures
        parm_dicts(s, res) == parm_dicts(s.take(n), res),
    decreases s.len() - n,
{
    if n < s.len() {
        assert(s.take(n + 1).drop_last() =~= s.take(n));
        lemma_parm_dicts_err(s, n + 1, res);
    } else {
        assert(s.take(n) =~= s);
    }
}

proof fn lemma_parm_dicts_unresolved<R: Resolve>(s: Seq<ObjectView>, res: &R)
    ensures
        parm_dicts(s, res) is Err ==> parm_dicts(s, res) == Err::<Seq<Option<Seq<(Seq<u8>, ObjectView)>>>, DecodeFailure>(DecodeFailure::Unresolved),
    decreases s.len(),
{
    if s.len() > 0 {
        lemma_parm_dicts_unresolved(s.drop_last(), res);
    }
}

/// A dictionary option as a sequence option.
pub open spec fn opt_view(o: Option<Dict>) -> Option<Seq<(Seq<u8>, ObjectView)>> {
    match o {
        Some(d) => Some(d@),
        None => None,
    }
}

/// The parameter dictionaries as written (see [`parm_list`]).
fn parms_of<R: Resolve>(dict: &Dict, res: &R) -> (r: Result<Vec<Option<Dict>>, Error>)
    ensures
        match parm_list(dict@, res) {
            Ok(ps) => r matches Ok(v) && v@.len() == ps.len() && forall|i: int|
                0 <= i < ps.len() ==> #[trigger] ps[i] == match v@[i] {
                    Some(d) => Some(d@),
                    None => None,
                },
            Err(f) => r is Err && f == DecodeFailure::Unresolved,
        },
{
    proof {
        if let Some(v) = match dict_get(dict@, "DecodeParms".spec_bytes()) {
            Some(v) => Some(v),
            None => dict_get(dict@, "DP".spec_bytes()),
        } {
            if let Some(ObjectView::Array(items)) = res.resolved(v) {
                lemma_parm_dicts_unresolved(items, res);
            }
        }
    }
    let entry = match dict.get(&Name::new("DecodeParms")) {
        Some(v) => Some(v),
        None => dict.get(&Name::new("DP")),
    };
    let entry = match entry {
        None => return Ok(Vec::new()),
        Some(v) => v,
    };
    let value = match res.resolve(entry) {
        Ok(v) => v,
        Err(e) => return Err(e),
    };
    match value {
        Object::Dict(d) => {
            let mut v: Vec<Option<Dict>> = Vec::new();
            v.push(Some(d));
            Ok(v)
        },
        Object::Array(items) => {
            let ghost views = value@->Array_0;
            proof {
                crate::object::lemma_items_view(items@);
            }
            let mut out: Vec<Option<Dict>> = Vec::new();
            let mut k: usize = 0;
            assert(parm_list(dict@, res) == parm_dicts(views, res));
            while k < items.len()
                invariant
                    parm_list(dict@, res) == parm_dicts(views, res),
                    k <= items@.len(),
                    views == crate::object::items_view(items@),
                    views.len() == items@.len(),
                    forall|j: int| 0 <= j < items@.len() ==> #[trigger] views[j] == items@[j]@,
                    parm_dicts(views.take(k as int), res) matches Ok(ps) && out@.len() == ps.len()
                        && forall|i: int| 0 <= i < ps.len() ==> #[trigger] ps[i] == match out@[i] {
                            Some(d) => Some(d@),
                            None => None,
                        },
                decreases items@.len() - k,
            {
                assert(views.take(k + 1).drop_last() =~= views.take(k as int));
                assert(views.take(k + 1).last() == items@[k as int]@);
                match res.resolve(&items[k]) {
                    Err(e) => {
                        proof { lemma_parm_dicts_err(views, k + 1, res); }
                        return Err(e);
                    },
                    Ok(Object::Dict(d)) => {
                        out.push(Some(d));
                    },
                    Ok(_) => {
                        out.push(None);
                    },
                }
                k = k + 1;
            }
            assert(views.take(items@.len() as int) =~= views);
            Ok(out)
        },
        _ => Ok(Vec::new()),
    }
}

/// The filters of a stream with their parameters, in application order
/// (see [`spec_filter_chain`]).
#[verifier::spinoff_prover]
fn filter_chain<R: Resolve>(dict: &Dict, res: &R) -> (r: Result<Vec<(Name, Option<Dict>)>, Error>)
    ensures
        match spec_filter_chain(dict@, res) {
            Ok(c) => r matches Ok(v) && chain_view(v@) == c,
            Err(DecodeFailure::Unresolved) => r is Err,
            Err(DecodeFailure::Filter(n)) => r matches Err(Error::Filter { filter, .. }) && filter@ == n,
            Err(_) => false,
        },
{
    let names = match filter_names_of(dict, res) {
        Err(e) => return Err(e),
        Ok(None) => {
            assert(chain_view(Seq::empty()) =~= Seq::empty());
            return Ok(Vec::new());
        },
        Ok(Some(v)) => v,
    };
    let mut parms = match parms_of(dict, res) {
        Err(e) => return Err(e),
        Ok(v) => v,
    };
    let ghost ghost_names = match filter_list(dict@, res) {
        Ok(Some(ns)) => ns,
        _ => Seq::empty(),
    };
    let ghost ps = match parm_list(dict@, res) {
        Ok(p) => p,
        _ => Seq::empty(),
    };
    let n = names.len();
    let mut pos: usize = 0;
    assert(ghost_names.skip(0) =~= ghost_names);
    while pos < n && !takes_predictor(&names[pos])
        invariant
            pos <= n == names@.len() == ghost_names.len(),
            forall|i: int| 0 <= i < n ==> #[trigger] names@[i].0@ == ghost_names[i],
            first_predictor_filter(ghost_names) == pos + first_predictor_filter(ghost_names.skip(pos as int)),
        decreases n - pos,
    {
        assert(ghost_names.skip(pos as int).drop_first() =~= ghost_names.skip(pos + 1));
        pos = pos + 1;
    }
    proof {
        if pos < n {
            assert(ghost_names.skip(pos as int)[0] == ghost_names[pos as int]);
        } else {
            assert(ghost_names.skip(pos as int).len() == 0);
        }
    }
    let ghost placed_spec = if ps.len() == 1 && ghost_names.len() > 1 && pos < ghost_names.len() {
        Seq::new(ghost_names.len(), |i: int| if i == pos { ps[0] } else { None })
    } else {
        ps
    };
    if parms.len() == 1 && n > 1 && pos < n {
        let lone = parms.pop().unwrap();
        let mut placed: Vec<Option<Dict>> = Vec::new();
        let mut k: usize = 0;
        while k < n
            invariant
                k <= n,
                placed@.len() == k,
                forall|i: int| 0 <= i < k ==> #[trigger] opt_view(placed@[i]) == if i == pos { opt_view(lone) } else { None },
            decreases n - k,
        {
            if k == pos {
                let copy = match &lone {
                    Some(d) => Some(d.clone()),
                    None => None,
                };
                placed.push(copy);
            } else {
                placed.push(None);
            }
            k = k + 1;
        }
        parms = placed;
    }
    assert(parms@.len() == placed_spec.len());
    assert(forall|i: int| 0 <= i < parms@.len() ==> #[trigger] opt_view(parms@[i]) == placed_spec[i]);
    let mut out: Vec<(Name, Option<Dict>)> = Vec::new();
    let mut k: usize = 0;
    while k < n
        invariant
            k <= n == names@.len() == ghost_names.len(),
            out@.len() == k,
            forall|i: int| 0 <= i < n ==> #[trigger] names@[i].0@ == ghost_names[i],
            parms@.len() == placed_spec.len(),
            forall|i: int| 0 <= i < parms@.len() ==> #[trigger] opt_view(parms@[i]) == placed_spec[i],
            forall|i: int| #![trigger out@[i]] 0 <= i < k ==> (out@[i].0.0@ == ghost_names[i] && opt_view(out@[i].1) == (if i < placed_spec.len() { placed_spec[i] } else { None })),
        decreases n - k,
    {
        let name = Name(crate::bytes::to_vec(names[k].0.as_slice()));
        if k < parms.len() {
            assert(opt_view(parms@[k as int]) == placed_spec[k as int]);
        }
        let p = if k < parms.len() {
            match &parms[k] {
                Some(d) => Some(d.clone()),
                None => None,
            }
        } else {
            None
        };
        assert(name.0@ == ghost_names[k as int]);
        assert(opt_view(p) == if (k as int) < placed_spec.len() { placed_spec[k as int] } else { None });
        let ghost before = out@;
        let ghost pv = opt_view(p);
        assert(pv == if (k as int) < placed_spec.len() { placed_spec[k as int] } else { None });
        out.push((name, p));
        proof {
            assert(out@[k as int].0.0@ == ghost_names[k as int]);
            assert(opt_view(out@[k as int].1) == pv);
            assert forall|i: int| #![trigger out@[i]] 0 <= i < k + 1 implies (out@[i].0.0@ == ghost_names[i] && opt_view(out@[i].1) == (if i < placed_spec.len() { placed_spec[i] } else { None })) by {
                if i < k {
                    assert(out@[i] == before[i]);
                } else {
                    assert(i == k);
                    assert(opt_view(out@[i].1) == pv);
                    assert(pv == if (k as int) < placed_spec.len() { placed_spec[k as int] } else { None });
                }
            }
        }
        k = k + 1;
    }
    proof {
        let c = spec_filter_chain(dict@, res)->Ok_0;
        assert(chain_view(out@) =~= c);
    }
    Ok(out)
}

/// The stages of `chain` from `i` on applied to `current`; each output is
/// held to the limit.
pub open spec fn chain_output<R: Resolve>(chain: Seq<(Seq<u8>, Option<Seq<(Seq<u8>, ObjectView)>>)>, i: int, current: Seq<u8>, res: &R, limits: DecodeLimits) -> Result<Seq<u8>, DecodeFailure>
    decreases chain.len() - i,
{
    if i >= chain.len() {
        Ok(current)
    } else {
        match stage_output(chain[i].0, chain[i].1, current, res, limits) {
            Err(f) => Err(f),
            Ok(next) => if next.len() > limits.max_output {
                Err(DecodeFailure::Limit("decoded stream data"@))
            } else {
                chain_output(chain, i + 1, next, res, limits)
            },
        }
    }
}

/// The decoded data of a stream.
pub open spec fn spec_decode_stream<R: Resolve>(d: Seq<(Seq<u8>, ObjectView)>, data: Seq<u8>, res: &R, limits: DecodeLimits) -> Result<Seq<u8>, DecodeFailure> {
    match spec_filter_chain(d, res) {
        Err(f) => Err(f),
        Ok(chain) => chain_output(chain, 0, data, res, limits),
    }
}

/// An integer parameter of `parms` (see [`int_parm`]).
fn read_int_parm<R: Resolve>(parms: &Dict, key: &str, default: i64, res: &R) -> (r: Result<i64, Error>)
    ensures
        match int_parm(parms@, key.spec_bytes(), default, res) {
            Ok(v) => r == Ok::<i64, Error>(v),
            Err(f) => r is Err,
        },
{
    match parms.get(&Name::new(key)) {
        None => Ok(default),
        Some(v) => match res.resolve(v) {
            Err(e) => Err(e),
            Ok(Object::Integer(i)) => Ok(i),
            Ok(_) => Ok(default),
        },
    }
}

fn predictor_error(message: &str) -> (e: Error)
    ensures
        e matches Error::Filter { filter: f, .. } && f@ == "Predictor"@,
{
    filter_error("Predictor", message)
}

/// Undo the predictor that `/DecodeParms` describes.
fn apply_predictor_parms<R: Resolve>(data: Vec<u8>, parms: Option<&Dict>, res: &R, limits: DecodeLimits) -> (r: Result<Vec<u8>, Error>)
    ensures
        decoded_result(r, predicted(data@, match parms { Some(p) => Some(p@), None => None }, res), limits),
{
    let parms = match parms {
        None => return Ok(data),
        Some(p) => p,
    };
    let predictor = match read_int_parm(parms, "Predictor", 1, res) {
        Ok(v) => v,
        Err(e) => return Err(e),
    };
    if predictor == 1 {
        return Ok(data);
    }
    if !(predictor == 2 || (10 <= predictor && predictor <= 15)) {
        return Err(predictor_error("unknown /Predictor value"));
    }
    let colors = match read_int_parm(parms, "Colors", 1, res) {
        Ok(v) => v,
        Err(e) => return Err(e),
    };
    if !(1 <= colors && colors <= 256) {
        return Err(predictor_error("/Colors out of range"));
    }
    let bits = match read_int_parm(parms, "BitsPerComponent", 8, res) {
        Ok(v) => v,
        Err(e) => return Err(e),
    };
    if !(bits == 1 || bits == 2 || bits == 4 || bits == 8 || bits == 16) {
        return Err(predictor_error("/BitsPerComponent must be 1, 2, 4, 8 or 16"));
    }
    let columns = match read_int_parm(parms, "Columns", 1, res) {
        Ok(v) => v,
        Err(e) => return Err(e),
    };
    if !(1 <= columns && (columns as u64) <= (usize::MAX as u64)) {
        return Err(predictor_error("/Columns must be at least 1"));
    }
    apply_predictor(
        data.as_slice(),
        Predictor {
            predictor: predictor as u8,
            colors: colors as usize,
            bits_per_component: bits as usize,
            columns: columns as usize,
        },
    )
}

fn unsupported(feature: &'static str) -> (e: Error)
    ensures
        e == (Error::Unsupported { feature }),
{
    Error::Unsupported { feature }
}

/// Whether `name` is `word`.
fn is_named(name: &Name, word: &str) -> (b: bool)
    ensures
        b == (name.0@ == word.spec_bytes()),
{
    bytes_eq(name.0.as_slice(), word.as_bytes())
}

/// Whether a filter takes predictor parameters: Flate and LZW.
fn takes_predictor(name: &Name) -> (b: bool)
    ensures
        b == spec_takes_predictor(name.0@),
{
    is_named(name, "FlateDecode") || is_named(name, "Fl") || is_named(name, "LZWDecode")
        || is_named(name, "LZW")
}

/// One filter stage. Abbreviated names come from inline images
/// (ISO 32000-2, table 92) and are tolerated on ordinary streams.
fn apply_filter<R: Resolve>(name: &Name, parms: Option<&Dict>, data: &[u8], res: &R, limits: DecodeLimits) -> (r: Result<Vec<u8>, Error>)
    ensures
        decoded_result(r, stage_output(name.0@, match parms { Some(p) => Some(p@), None => None }, data@, res, limits), limits),
{
    if is_named(name, "FlateDecode") || is_named(name, "Fl") {
        let inflated = match flate_decode(data, limits) {
            Ok(x) => x,
            Err(e) => return Err(e),
        };
        apply_predictor_parms(inflated, parms, res, limits)
    } else if is_named(name, "LZWDecode") || is_named(name, "LZW") {
        Err(unsupported("LZWDecode filter (ISO 32000-2, 7.4.4)"))
    } else if is_named(name, "ASCIIHexDecode") || is_named(name, "AHx") {
        Ok(ascii_hex_decode(data))
    } else if is_named(name, "ASCII85Decode") || is_named(name, "A85") {
        ascii85_decode(data)
    } else if is_named(name, "RunLengthDecode") || is_named(name, "RL") {
        run_length_decode(data, limits)
    } else if is_named(name, "Crypt") {
        Ok(copy_bytes(data))
    } else if is_named(name, "CCITTFaxDecode") || is_named(name, "CCF") {
        Err(unsupported("CCITTFaxDecode filter (ISO 32000-2, 7.4.6)"))
    } else if is_named(name, "JBIG2Decode") {
        Err(unsupported("JBIG2Decode filter (ISO 32000-2, 7.4.7)"))
    } else if is_named(name, "DCTDecode") || is_named(name, "DCT") {
        Err(unsupported("DCTDecode filter (ISO 32000-2, 7.4.8)"))
    } else if is_named(name, "JPXDecode") {
        Err(unsupported("JPXDecode filter (ISO 32000-2, 7.4.9)"))
    } else {
        Err(Error::Filter { filter: name.as_str_lossy(), message: crate::text::string_of("unknown filter") })
    }
}

/// Apply the `/Filter` chain of a stream dictionary to its raw `data`,
/// with the matching `/DecodeParms`, under `limits`; `res` follows the
/// references found in the dictionary. Every stage's output is held to
/// the limit.
pub fn decode_stream_with<R: Resolve>(dict: &Dict, data: &[u8], res: &R, limits: DecodeLimits) -> (r: Result<Vec<u8>, Error>)
    ensures
        decoded_result(r, spec_decode_stream(dict@, data@, res, limits), limits),
{
    let chain = match filter_chain(dict, res) {
        Ok(c) => c,
        Err(e) => return Err(e),
    };
    let ghost cv = chain_view(chain@);
    let mut current = copy_bytes(data);
    let mut k: usize = 0;
    while k < chain.len()
        invariant
            k <= chain@.len(),
            cv == chain_view(chain@),
            spec_filter_chain(dict@, res) == Ok::<Seq<(Seq<u8>, Option<Seq<(Seq<u8>, ObjectView)>>)>, DecodeFailure>(cv),
            chain_output(cv, 0, data@, res, limits) == chain_output(cv, k as int, current@, res, limits),
        decreases chain@.len() - k,
    {
        let stage = &chain[k];
        let next = match apply_filter(&stage.0, stage.1.as_ref(), current.as_slice(), res, limits) {
            Ok(x) => x,
            Err(e) => return Err(e),
        };
        if next.len() > limits.max_output {
            return Err(limit(limits, "decoded stream data"));
        }
        current = next;
        k = k + 1;
    }
    Ok(current)
}

/// [`decode_stream_with`] under the default limits.
pub fn decode_stream<R: Resolve>(dict: &Dict, data: &[u8], res: &R) -> (r: Result<Vec<u8>, Error>)
    ensures
        decoded_result(
            r,
            spec_decode_stream(dict@, data@, res, DecodeLimits { max_output: DEFAULT_MAX_OUTPUT }),
            DecodeLimits { max_output: DEFAULT_MAX_OUTPUT },
        ),
{
    decode_stream_with(dict, data, res, DecodeLimits::default())
}

} // verus!
