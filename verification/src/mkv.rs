use vstd::prelude::*;
use crate::bitmap::{Bitmap, Rgba};
use crate::bytes::{be_bytes, ByteCursor};
use crate::ebml::{
    read_id, read_size, read_vint_id, read_vint_num, read_vint_size, read_vnum, SizeVal, ID_BLOCK,
    ID_BLOCK_GROUP, ID_CLUSTER, ID_CODEC_ID, ID_CODEC_PRIVATE, ID_LANGUAGE, ID_LANGUAGE_IETF,
    ID_SEGMENT, ID_SIMPLE_BLOCK, ID_TRACKS, ID_TRACK_ENTRY, ID_TRACK_NUMBER, ID_TRACK_TYPE,
};
use crate::errors::SubError;
use crate::text::{lossy_of, str_eq, utf8_lossy};
use crate::vob::idx_spec;

verus! {

/// A subtitle track's language, folded from the container's language tags.
pub enum KnownLanguage {
    English,
    Unknown(String),
}

/// The mathematical shape of a language.
pub enum LangModel {
    English,
    Unknown(Seq<char>),
}

impl View for KnownLanguage {
    type V = LangModel;

    open spec fn view(&self) -> LangModel {
        match self {
            KnownLanguage::English => LangModel::English,
            KnownLanguage::Unknown(s) => LangModel::Unknown(s@),
        }
    }
}

/// The tags that fold to English.
pub open spec fn is_english_tag(t: Seq<char>) -> bool {
    t == "en"@ || t == "eng"@ || t == "en-US"@
}

pub open spec fn lang_of_tag(t: Seq<char>) -> LangModel {
    if is_english_tag(t) {
        LangModel::English
    } else {
        LangModel::Unknown(t)
    }
}

impl KnownLanguage {
    /// Folds one language tag: `en`, `eng` and `en-US` are English,
    /// anything else is carried through.
    pub fn from_tag(tag: &str) -> (r: KnownLanguage)
        ensures
            r@ == lang_of_tag(tag@),
    {
        if str_eq(tag, "en") || str_eq(tag, "eng") || str_eq(tag, "en-US") {
            KnownLanguage::English
        } else {
            KnownLanguage::Unknown(tag.to_owned())
        }
    }

    /// The display name of the language.
    pub fn to_string(&self) -> (r: &str)
        ensures
            (self@ is English ==> r@ == "English"@),
            (self@ matches LangModel::Unknown(t) ==> r@ == t),
    {
        match self {
            KnownLanguage::English => "English",
            KnownLanguage::Unknown(value) => value.as_str(),
        }
    }
}

/// A subtitle track's codec, with the VOBSUB sidecar already parsed.
pub enum KnownEncoding {
    PGS,
    VOB { width: u32, height: u32, palette: Vec<Rgba> },
    Unknown(String),
}

/// The mathematical shape of an encoding.
pub enum EncModel {
    PGS,
    VOB { width: u32, height: u32, palette: Seq<Rgba> },
    Unknown(Seq<char>),
}

impl View for KnownEncoding {
    type V = EncModel;

    open spec fn view(&self) -> EncModel {
        match self {
            KnownEncoding::PGS => EncModel::PGS,
            KnownEncoding::VOB { width, height, palette } => EncModel::VOB {
                width: *width,
                height: *height,
                palette: palette@,
            },
            KnownEncoding::Unknown(s) => EncModel::Unknown(s@),
        }
    }
}

/// What a codec id and its codec-private data stand for: the
/// presentation-graphics codec, the DVD subpicture codec with its parsed
/// idx sidecar, or something the pipeline passes over. A VOBSUB track
/// without private data is missing its sidecar.
pub open spec fn encoding_of(tag: Seq<char>, data: Option<Seq<u8>>) -> Result<
    EncModel,
    SubError,
> {
    if tag == "S_HDMV/PGS"@ {
        Ok(EncModel::PGS)
    } else if tag == "S_VOBSUB"@ {
        match data {
            None => Err(SubError::MissingCodecPrivate),
            Some(d) => match idx_spec(d) {
                Ok(t) => Ok(EncModel::VOB { width: t.0, height: t.1, palette: t.2 }),
                Err(e) => Err(e),
            },
        }
    } else {
        Ok(EncModel::Unknown(tag))
    }
}

impl KnownEncoding {
    /// A parsed VOBSUB track always carries its sixteen idx colours.
    pub open spec fn wf(&self) -> bool {
        self@ matches EncModel::VOB { palette, .. } ==> palette.len() == 16
    }

    /// Folds one codec id with its codec-private data, parsing the idx
    /// sidecar of a VOBSUB track.
    pub fn from_tag_and_data(tag: &str, data: Option<&[u8]>) -> (r: Result<
        KnownEncoding,
        SubError,
    >)
        ensures
            match r {
                Ok(enc) => encoding_of(
                    tag@,
                    match data {
                        Some(d) => Some(d@),
                        None => None,
                    },
                ) matches Ok(m) && enc@ == m && enc.wf(),
                Err(e) => encoding_of(
                    tag@,
                    match data {
                        Some(d) => Some(d@),
                        None => None,
                    },
                ) matches Err(e2) && e == e2,
            },
    {
        if str_eq(tag, "S_HDMV/PGS") {
            Ok(KnownEncoding::PGS)
        } else if str_eq(tag, "S_VOBSUB") {
            match data {
                None => Err(SubError::MissingCodecPrivate),
                Some(d) => match crate::vob::parse_idx(d) {
                    Ok((width, height, palette)) => Ok(
                        KnownEncoding::VOB { width, height, palette },
                    ),
                    Err(e) => Err(e),
                },
            }
        } else {
            Ok(KnownEncoding::Unknown(tag.to_owned()))
        }
    }

    /// The codec id the encoding stands for.
    pub fn to_string(&self) -> (r: &str)
        ensures
            (self@ is PGS ==> r@ == "S_HDMV/PGS"@),
            (self@ matches EncModel::VOB { .. } ==> r@ == "S_VOBSUB"@),
            (self@ matches EncModel::Unknown(t) ==> r@ == t),
    {
        match self {
            KnownEncoding::PGS => "S_HDMV/PGS",
            KnownEncoding::VOB { .. } => "S_VOBSUB",
            KnownEncoding::Unknown(value) => value.as_str(),
        }
    }
}

/// One subtitle track of the inventory.
pub struct TrackInfo {
    pub track_number: u64,
    pub encoding: KnownEncoding,
    pub language: KnownLanguage,
}

/// The mathematical shape of a track.
pub struct TrackModel {
    pub track_number: u64,
    pub encoding: EncModel,
    pub language: LangModel,
}

impl View for TrackInfo {
    type V = TrackModel;

    open spec fn view(&self) -> TrackModel {
        TrackModel {
            track_number: self.track_number,
            encoding: self.encoding@,
            language: self.language@,
        }
    }
}

impl TrackInfo {
    pub open spec fn wf(&self) -> bool {
        self.encoding.wf()
    }
}

/// The views of a track list.
pub open spec fn tracks_view(v: Seq<TrackInfo>) -> Seq<TrackModel> {
    Seq::new(v.len(), |i: int| v[i]@)
}

/// What one track entry's children have established: its number, its
/// language (an IETF tag wins over a plain one), its codec id, its private
/// data, and whether it is a subtitle track.
pub struct TeAcc {
    pub number: Option<u64>,
    pub lang: Option<Seq<char>>,
    pub codec: Option<Seq<char>>,
    pub private: Option<Seq<u8>>,
    pub is_sub: bool,
}

impl TeAcc {
    pub open spec fn start() -> TeAcc {
        TeAcc { number: None, lang: None, codec: None, private: None, is_sub: false }
    }
}

/// A container unsigned integer: up to eight big-endian payload bytes.
pub open spec fn uint_of(payload: Seq<u8>) -> Option<u64> {
    if payload.len() <= 8 {
        Some(be_bytes(payload) as u64)
    } else {
        None
    }
}

/// One track-entry child folded into the accumulator.
pub open spec fn te_child(id: u64, payload: Seq<u8>, acc: TeAcc) -> Result<TeAcc, SubError> {
    if id == ID_TRACK_NUMBER {
        match uint_of(payload) {
            Some(v) => Ok(TeAcc { number: Some(v), ..acc }),
            None => Err(SubError::MalformedContainer),
        }
    } else if id == ID_TRACK_TYPE {
        match uint_of(payload) {
            Some(v) => if v == 0x11 {
                Ok(TeAcc { is_sub: true, ..acc })
            } else {
                Ok(acc)
            },
            None => Err(SubError::MalformedContainer),
        }
    } else if id == ID_LANGUAGE {
        if acc.lang is None {
            Ok(TeAcc { lang: Some(lossy_of(payload)), ..acc })
        } else {
            Ok(acc)
        }
    } else if id == ID_LANGUAGE_IETF {
        Ok(TeAcc { lang: Some(lossy_of(payload)), ..acc })
    } else if id == ID_CODEC_ID {
        Ok(TeAcc { codec: Some(lossy_of(payload)), ..acc })
    } else if id == ID_CODEC_PRIVATE {
        Ok(TeAcc { private: Some(payload), ..acc })
    } else {
        Ok(acc)
    }
}

/// Folds a track entry's children from byte `p` of its body.
pub open spec fn te_fold(body: Seq<u8>, p: int, acc: TeAcc) -> Result<TeAcc, SubError>
    decreases body.len() - p,
{
    if p < 0 {
        Err(SubError::MalformedContainer)
    } else if p >= body.len() {
        Ok(acc)
    } else {
        match read_id(body, p) {
            None => Err(SubError::MalformedContainer),
            Some((id, p1)) => match read_vnum(body, p1) {
                None => Err(SubError::MalformedContainer),
                Some((sz, p2)) => if p2 + sz > body.len() {
                    Err(SubError::MalformedContainer)
                } else {
                    match te_child(id, body.subrange(p2, p2 + sz), acc) {
                        Err(e) => Err(e),
                        Ok(acc2) => te_fold(body, p2 + sz, acc2),
                    }
                },
            },
        }
    }
}

/// What one track entry contributes to the inventory: a subtitle track
/// with a number, a language and a codec id becomes a track; anything
/// else, including a track whose sidecar fails to parse, is passed over.
pub open spec fn track_of_entry(body: Seq<u8>) -> Result<Option<TrackModel>, SubError> {
    match te_fold(body, 0, TeAcc::start()) {
        Err(e) => Err(e),
        Ok(acc) => if acc.is_sub {
            match (acc.number, acc.lang, acc.codec) {
                (Some(n), Some(l), Some(cd)) => match encoding_of(cd, acc.private) {
                    Err(_) => Ok(None),
                    Ok(enc) => Ok(
                        Some(
                            TrackModel {
                                track_number: n,
                                encoding: enc,
                                language: lang_of_tag(l),
                            },
                        ),
                    ),
                },
                _ => Ok(None),
            }
        } else {
            Ok(None)
        },
    }
}

/// Reads one track entry's children and builds its track, if it is a
/// complete subtitle track, as `track_of_entry` lays it down.
#[verifier::rlimit(100)]
fn parse_track_entry(body: &[u8]) -> (r: Result<Option<TrackInfo>, SubError>)
    ensures
        match r {
            Ok(Some(t)) => track_of_entry(body@) matches Ok(Some(m)) && t@ == m && t.wf(),
            Ok(None) => track_of_entry(body@) matches Ok(o) && o is None,
            Err(e) => track_of_entry(body@) matches Err(e2) && e == e2,
        },
{
    let n = body.len();
    let mut c = ByteCursor::new(body);
    let mut number: Option<u64> = None;
    let mut lang: Option<String> = None;
    let mut codec: Option<String> = None;
    let mut private: Option<&[u8]> = None;
    let mut is_sub: bool = false;
    while !c.is_at_end()
        invariant
            c.data@ == body@,
            c.wf(),
            n == body@.len(),
            te_fold(body@, 0, TeAcc::start()) == te_fold(
                body@,
                c.pos as int,
                TeAcc {
                    number,
                    lang: (match lang {
                        Some(ref l) => Some(l@),
                        None => None,
                    }),
                    codec: (match codec {
                        Some(ref cd) => Some(cd@),
                        None => None,
                    }),
                    private: (match private {
                        Some(pr) => Some(pr@),
                        None => None,
                    }),
                    is_sub,
                },
            ),
        decreases n - c.pos,
    {
        let id = match read_vint_id(&mut c) {
            Some(v) => v,
            None => {
                return Err(SubError::MalformedContainer);
            },
        };
        let sz = match read_vint_num(&mut c) {
            Some(v) => v,
            None => {
                return Err(SubError::MalformedContainer);
            },
        };
        if sz > n as u64 {
            return Err(SubError::MalformedContainer);
        }
        let payload = match c.take(sz as usize) {
            Some(s2) => s2,
            None => {
                return Err(SubError::MalformedContainer);
            },
        };
        if id == ID_TRACK_NUMBER {
            if payload.len() > 8 {
                return Err(SubError::MalformedContainer);
            }
            number = Some(read_uint(payload));
        } else if id == ID_TRACK_TYPE {
            if payload.len() > 8 {
                return Err(SubError::MalformedContainer);
            }
            if read_uint(payload) == 0x11 {
                is_sub = true;
            }
        } else if id == ID_LANGUAGE {
            if lang.is_none() {
                lang = Some(utf8_lossy(payload));
            }
        } else if id == ID_LANGUAGE_IETF {
            lang = Some(utf8_lossy(payload));
        } else if id == ID_CODEC_ID {
            codec = Some(utf8_lossy(payload));
        } else if id == ID_CODEC_PRIVATE {
            private = Some(payload);
        }
    }
    if !is_sub {
        return Ok(None);
    }
    let (num, l, cd) = match (number, &lang, &codec) {
        (Some(num), Some(l), Some(cd)) => (num, l, cd),
        _ => {
            return Ok(None);
        },
    };
    match KnownEncoding::from_tag_and_data(cd.as_str(), private) {
        Err(_) => Ok(None),
        Ok(enc) => Ok(
            Some(
                TrackInfo {
                    track_number: num,
                    encoding: enc,
                    language: KnownLanguage::from_tag(l.as_str()),
                },
            ),
        ),
    }
}

/// An unsigned integer from at most eight big-endian bytes.
fn read_uint(payload: &[u8]) -> (r: u64)
    requires
        payload@.len() <= 8,
    ensures
        uint_of(payload@) == Some(r),
{
    let mut val: u64 = 0;
    let mut i: usize = 0;
    while i < payload.len()
        invariant
            payload@.len() <= 8,
            i <= payload@.len(),
            val == be_bytes(payload@.take(i as int)),
            val < crate::bytes::pow256b(i as int),
        decreases payload@.len() - i,
    {
        proof {
            assert(crate::bytes::pow256b(0) == 1 && crate::bytes::pow256b(1) == 0x100
                && crate::bytes::pow256b(2) == 0x1_0000 && crate::bytes::pow256b(3) == 0x100_0000
                && crate::bytes::pow256b(4) == 0x1_0000_0000 && crate::bytes::pow256b(5)
                == 0x100_0000_0000 && crate::bytes::pow256b(6) == 0x1_0000_0000_0000
                && crate::bytes::pow256b(7) == 0x100_0000_0000_0000 && crate::bytes::pow256b(8)
                == 0x1_0000_0000_0000_0000);
            assert(payload@.take(i + 1).drop_last() =~= payload@.take(i as int));
            assert(payload@.take(i + 1).last() == payload@[i as int]);
        }
        val = val * 256 + (payload[i] as u64);
        i = i + 1;
    }
    proof {
        assert(payload@.take(payload@.len() as int) =~= payload@);
    }
    val
}

/// Whether some collected track already carries this number.
pub open spec fn has_number(acc: Seq<TrackModel>, n: u64) -> bool {
    exists|j: int| 0 <= j < acc.len() && acc[j].track_number == n
}

/// Folds the children of the `Tracks` master: each complete subtitle
/// entry joins the inventory unless its number is already taken, which
/// keeps track numbers unique.
pub open spec fn tracks_fold(body: Seq<u8>, p: int, acc: Seq<TrackModel>) -> Result<
    Seq<TrackModel>,
    SubError,
>
    decreases body.len() - p,
{
    if p < 0 {
        Err(SubError::MalformedContainer)
    } else if p >= body.len() {
        Ok(acc)
    } else {
        match read_id(body, p) {
            None => Err(SubError::MalformedContainer),
            Some((id, p1)) => match read_vnum(body, p1) {
                None => Err(SubError::MalformedContainer),
                Some((sz, p2)) => if p2 + sz > body.len() {
                    Err(SubError::MalformedContainer)
                } else if id == ID_TRACK_ENTRY {
                    match track_of_entry(body.subrange(p2, p2 + sz)) {
                        Err(e) => Err(e),
                        Ok(None) => tracks_fold(body, p2 + sz, acc),
                        Ok(Some(t)) => if has_number(acc, t.track_number) {
                            tracks_fold(body, p2 + sz, acc)
                        } else {
                            tracks_fold(body, p2 + sz, acc.push(t))
                        },
                    }
                } else {
                    tracks_fold(body, p2 + sz, acc)
                },
            },
        }
    }
}

/// The top-level walk for the inventory: descend into `Segment`, read a
/// `Tracks` master whole, and stop at the first one that yields subtitle
/// tracks, remembering where the block scan resumes.
pub open spec fn scan_tracks(data: Seq<u8>, p: int) -> Result<(Seq<TrackModel>, int), SubError>
    decreases data.len() - p,
{
    if p < 0 {
        Err(SubError::MalformedContainer)
    } else if p >= data.len() {
        Ok((Seq::empty(), p))
    } else {
        match read_id(data, p) {
            None => Err(SubError::MalformedContainer),
            Some((id, p1)) => match read_size(data, p1) {
                None => Err(SubError::MalformedContainer),
                Some((sv, p2)) => if id == ID_SEGMENT || id == ID_CLUSTER || id
                    == ID_BLOCK_GROUP {
                    if p < p2 <= data.len() {
                        scan_tracks(data, p2)
                    } else {
                        Err(SubError::MalformedContainer)
                    }
                } else {
                    match sv {
                        SizeVal::Unknown => Err(SubError::MalformedContainer),
                        SizeVal::Known(sz) => if p2 + sz > data.len() {
                            Err(SubError::MalformedContainer)
                        } else if id == ID_TRACKS {
                            match tracks_fold(data.subrange(p2, p2 + sz), 0, Seq::empty()) {
                                Err(e) => Err(e),
                                Ok(ts) => if ts.len() > 0 {
                                    Ok((ts, p2 + sz))
                                } else {
                                    scan_tracks(data, p2 + sz)
                                },
                            }
                        } else {
                            scan_tracks(data, p2 + sz)
                        },
                    }
                },
            },
        }
    }
}

/// Every inventory the fold yields keeps its numbers unique.
pub proof fn lemma_tracks_fold_unique(body: Seq<u8>, p: int, acc: Seq<TrackModel>)
    requires
        forall|i: int, j: int|
            0 <= i < j < acc.len() ==> (#[trigger] acc[i]).track_number != (
            #[trigger] acc[j]).track_number,
        tracks_fold(body, p, acc) is Ok,
    ensures
        forall|i: int, j: int|
            0 <= i < j < tracks_fold(body, p, acc).unwrap().len() ==> (
            #[trigger] tracks_fold(body, p, acc).unwrap()[i]).track_number != (
            #[trigger] tracks_fold(body, p, acc).unwrap()[j]).track_number,
    decreases body.len() - p,
{
    if p < 0 || p >= body.len() {
    } else {
        match read_id(body, p) {
            None => {},
            Some((id, p1)) => match read_vnum(body, p1) {
                None => {},
                Some((sz, p2)) => {
                    if p2 + sz > body.len() {
                    } else if id == ID_TRACK_ENTRY {
                        match track_of_entry(body.subrange(p2, p2 + sz)) {
                            Err(_) => {},
                            Ok(None) => {
                                lemma_tracks_fold_unique(body, p2 + sz, acc);
                            },
                            Ok(Some(t)) => {
                                if has_number(acc, t.track_number) {
                                    lemma_tracks_fold_unique(body, p2 + sz, acc);
                                } else {
                                    assert forall|i: int, j: int|
                                        0 <= i < j < acc.push(t).len() implies (#[trigger] acc.push(
                                        t,
                                    )[i]).track_number != (#[trigger] acc.push(
                                        t,
                                    )[j]).track_number by {
                                        if j == acc.len() {
                                            assert(acc[i].track_number != t.track_number);
                                        }
                                    }
                                    lemma_tracks_fold_unique(body, p2 + sz, acc.push(t));
                                }
                            },
                        }
                    } else {
                        lemma_tracks_fold_unique(body, p2 + sz, acc);
                    }
                },
            },
        }
    }
}

/// The inventories a container walk yields keep their numbers unique.
pub proof fn lemma_scan_tracks_unique(data: Seq<u8>, p: int)
    requires
        scan_tracks(data, p) is Ok,
    ensures
        forall|i: int, j: int|
            0 <= i < j < scan_tracks(data, p).unwrap().0.len() ==> (#[trigger] scan_tracks(
                data,
                p,
            ).unwrap().0[i]).track_number != (#[trigger] scan_tracks(
                data,
                p,
            ).unwrap().0[j]).track_number,
    decreases data.len() - p,
{
    if p < 0 || p >= data.len() {
    } else {
        match read_id(data, p) {
            None => {},
            Some((id, p1)) => match read_size(data, p1) {
                None => {},
                Some((sv, p2)) => {
                    if id == ID_SEGMENT || id == ID_CLUSTER || id == ID_BLOCK_GROUP {
                        if p < p2 <= data.len() {
                            lemma_scan_tracks_unique(data, p2);
                        }
                    } else {
                        match sv {
                            SizeVal::Unknown => {},
                            SizeVal::Known(sz) => {
                                if p2 + sz > data.len() {
                                } else if id == ID_TRACKS {
                                    match tracks_fold(
                                        data.subrange(p2, p2 + sz),
                                        0,
                                        Seq::empty(),
                                    ) {
                                        Err(_) => {},
                                        Ok(ts) => {
                                            if ts.len() > 0 {
                                                lemma_tracks_fold_unique(
                                                    data.subrange(p2, p2 + sz),
                                                    0,
                                                    Seq::empty(),
                                                );
                                            } else {
                                                lemma_scan_tracks_unique(data, p2 + sz);
                                            }
                                        },
                                    }
                                } else {
                                    lemma_scan_tracks_unique(data, p2 + sz);
                                }
                            },
                        }
                    }
                },
            },
        }
    }
}

/// Whether some collected track already carries this number.
fn has_number_exec(acc: &Vec<TrackInfo>, n: u64) -> (r: bool)
    ensures
        r == has_number(tracks_view(acc@), n),
{
    let mut i: usize = 0;
    while i < acc.len()
        invariant
            i <= acc@.len(),
            forall|j: int| 0 <= j < i ==> (#[trigger] tracks_view(acc@)[j]).track_number != n,
        decreases acc@.len() - i,
    {
        if acc[i].track_number == n {
            proof {
                assert(tracks_view(acc@)[i as int].track_number == n);
            }
            return true;
        }
        i = i + 1;
    }
    false
}

/// Reads the children of one `Tracks` master, as `tracks_fold` lays them
/// down.
#[verifier::rlimit(100)]
fn parse_tracks(body: &[u8]) -> (r: Result<Vec<TrackInfo>, SubError>)
    ensures
        match r {
            Ok(ts) => {
                &&& tracks_fold(body@, 0, Seq::empty()) matches Ok(m) && m == tracks_view(ts@)
                &&& forall|i: int| 0 <= i < ts@.len() ==> (#[trigger] ts@[i]).wf()
            },
            Err(e) => tracks_fold(body@, 0, Seq::empty()) matches Err(e2) && e == e2,
        },
{
    let n = body.len();
    let mut c = ByteCursor::new(body);
    let mut acc: Vec<TrackInfo> = Vec::new();
    proof {
        assert(tracks_view(acc@) =~= Seq::<TrackModel>::empty());
    }
    while !c.is_at_end()
        invariant
            c.data@ == body@,
            c.wf(),
            n == body@.len(),
            tracks_fold(body@, 0, Seq::empty()) == tracks_fold(
                body@,
                c.pos as int,
                tracks_view(acc@),
            ),
            forall|i: int| 0 <= i < acc@.len() ==> (#[trigger] acc@[i]).wf(),
        decreases n - c.pos,
    {
        let id = match read_vint_id(&mut c) {
            Some(v) => v,
            None => {
                return Err(SubError::MalformedContainer);
            },
        };
        let sz = match read_vint_num(&mut c) {
            Some(v) => v,
            None => {
                return Err(SubError::MalformedContainer);
            },
        };
        if sz > n as u64 {
            return Err(SubError::MalformedContainer);
        }
        let payload = match c.take(sz as usize) {
            Some(s2) => s2,
            None => {
                return Err(SubError::MalformedContainer);
            },
        };
        if id == ID_TRACK_ENTRY {
            match parse_track_entry(payload) {
                Err(e) => {
                    return Err(e);
                },
                Ok(None) => {},
                Ok(Some(t)) => {
                    if !has_number_exec(&acc, t.track_number) {
                        let ghost acc0 = tracks_view(acc@);
                        acc.push(t);
                        proof {
                            assert(tracks_view(acc@) =~= acc0.push(acc@.last()@));
                        }
                    }
                },
            }
        }
    }
    Ok(acc)
}

/// A container opened for the inventory and the block scan: its bytes,
/// the subtitle tracks the prelude yielded, and where the block scan
/// resumes.
pub struct MkvFile {
    pub data: Vec<u8>,
    pub pos: usize,
    pub track_infos: Vec<TrackInfo>,
}

impl MkvFile {
    pub open spec fn wf(&self) -> bool {
        &&& self.pos <= self.data@.len()
        &&& forall|i: int|
            0 <= i < self.track_infos@.len() ==> (#[trigger] self.track_infos@[i]).wf()
    }

    /// Scans the container's head for its subtitle tracks, as
    /// `scan_tracks` lays it down; the numbers of the tracks found are
    /// pairwise distinct.
    #[verifier::rlimit(100)]
    pub fn new(source: Vec<u8>) -> (r: Result<MkvFile, SubError>)
        ensures
            match r {
                Ok(f) => {
                    &&& scan_tracks(source@, 0) matches Ok(t) && t.0 == tracks_view(
                        f.track_infos@,
                    ) && t.1 == f.pos
                    &&& f.data@ == source@
                    &&& f.wf()
                    &&& forall|i: int, j: int|
                        0 <= i < j < f.track_infos@.len() ==> (#[trigger] f.track_infos@[i]).track_number
                            != (#[trigger] f.track_infos@[j]).track_number
                },
                Err(e) => scan_tracks(source@, 0) matches Err(e2) && e == e2,
            },
    {
        let n = source.len();
        let mut c = ByteCursor::new(source.as_slice());
        let mut found: Option<Vec<TrackInfo>> = None;
        loop
            invariant
                c.data@ == source@,
                c.wf(),
                n == source@.len(),
                found is None,
                scan_tracks(source@, 0) == scan_tracks(source@, c.pos as int),
            decreases n - c.pos,
        {
            if c.is_at_end() {
                let f = MkvFile { pos: n, data: source, track_infos: Vec::new() };
                proof {
                    assert(tracks_view(f.track_infos@) =~= Seq::<TrackModel>::empty());
                }
                return Ok(f);
            }
            let ghost p0 = c.pos as int;
            let id = match read_vint_id(&mut c) {
                Some(v) => v,
                None => {
                    return Err(SubError::MalformedContainer);
                },
            };
            let sv = match read_vint_size(&mut c) {
                Some(v) => v,
                None => {
                    return Err(SubError::MalformedContainer);
                },
            };
            if id == ID_SEGMENT || id == ID_CLUSTER || id == ID_BLOCK_GROUP {
                // descend into the master and keep walking its children
                continue ;
            }
            let sz = match sv {
                SizeVal::Known(sz) => sz,
                SizeVal::Unknown => {
                    return Err(SubError::MalformedContainer);
                },
            };
            if sz > n as u64 {
                return Err(SubError::MalformedContainer);
            }
            let payload = match c.take(sz as usize) {
                Some(s2) => s2,
                None => {
                    return Err(SubError::MalformedContainer);
                },
            };
            if id == ID_TRACKS {
                match parse_tracks(payload) {
                    Err(e) => {
                        return Err(e);
                    },
                    Ok(ts) => {
                        if ts.len() > 0 {
                            proof {
                                assert(scan_tracks(source@, 0) matches Ok(t) && t.0
                                    == tracks_view(ts@));
                                lemma_scan_tracks_unique(source@, 0);
                                assert forall|i: int, j: int|
                                    0 <= i < j < ts@.len() implies (#[trigger] ts@[i]).track_number
                                        != (#[trigger] ts@[j]).track_number by {
                                    assert(scan_tracks(source@, 0).unwrap().0[i] == tracks_view(
                                        ts@,
                                    )[i]);
                                    assert(scan_tracks(source@, 0).unwrap().0[j] == tracks_view(
                                        ts@,
                                    )[j]);
                                    assert(tracks_view(ts@)[i].track_number
                                        == ts@[i].track_number);
                                }
                            }
                            let pos = c.position();
                            let f = MkvFile { pos, data: source, track_infos: ts };
                            return Ok(f);
                        }
                    },
                }
            }
        }
    }

    /// The subtitle tracks the prelude scan found.
    pub fn tracks(&self) -> (r: &Vec<TrackInfo>)
        ensures
            r == &self.track_infos,
    {
        &self.track_infos
    }
}

/// The lacing kinds a block's flags can name; all are unsupported here.
#[derive(Clone, Copy, Debug, PartialEq, Eq, Structural)]
pub enum Lacing {
    Xiph,
    FixedSize,
    Ebml,
}

/// One data block of the chosen track.
pub struct Block {
    pub track_number: u64,
    pub lacing: Option<Lacing>,
    pub payload: Vec<u8>,
}

/// The mathematical shape of a block.
pub struct BlockModel {
    pub track_number: u64,
    pub lacing: Option<Lacing>,
    pub payload: Seq<u8>,
}

impl View for Block {
    type V = BlockModel;

    open spec fn view(&self) -> BlockModel {
        BlockModel {
            track_number: self.track_number,
            lacing: self.lacing,
            payload: self.payload@,
        }
    }
}

/// The lacing named by a block's flags byte.
pub open spec fn lacing_of(flags: u8) -> Option<Lacing> {
    let b = (flags / 2) % 4;
    if b == 0 {
        None
    } else if b == 1 {
        Some(Lacing::Xiph)
    } else if b == 2 {
        Some(Lacing::FixedSize)
    } else {
        Some(Lacing::Ebml)
    }
}

/// A block frame: the track's variable-length number, two timestamp
/// bytes, the flags byte, then the codec payload.
pub open spec fn frame_of(payload: Seq<u8>) -> Option<BlockModel> {
    match read_vnum(payload, 0) {
        None => None,
        Some((tn, p1)) => if p1 + 3 <= payload.len() {
            Some(
                BlockModel {
                    track_number: tn,
                    lacing: lacing_of(payload[p1 + 2]),
                    payload: payload.skip(p1 + 3),
                },
            )
        } else {
            None
        },
    }
}

/// The forward walk for the next block of one track: descend into the
/// masters, read block frames whole, pass over other tracks' blocks.
pub open spec fn scan_blocks(data: Seq<u8>, p: int, track: u64) -> Result<
    Option<(BlockModel, int)>,
    SubError,
>
    decreases data.len() - p,
{
    if p < 0 {
        Err(SubError::MalformedContainer)
    } else if p >= data.len() {
        Ok(None)
    } else {
        match read_id(data, p) {
            None => Err(SubError::MalformedContainer),
            Some((id, p1)) => match read_size(data, p1) {
                None => Err(SubError::MalformedContainer),
                Some((sv, p2)) => if id == ID_SEGMENT || id == ID_CLUSTER || id
                    == ID_BLOCK_GROUP {
                    if p < p2 <= data.len() {
                        scan_blocks(data, p2, track)
                    } else {
                        Err(SubError::MalformedContainer)
                    }
                } else {
                    match sv {
                        SizeVal::Unknown => Err(SubError::MalformedContainer),
                        SizeVal::Known(sz) => if p2 + sz > data.len() {
                            Err(SubError::MalformedContainer)
                        } else if id == ID_BLOCK || id == ID_SIMPLE_BLOCK {
                            match frame_of(data.subrange(p2, p2 + sz)) {
                                None => Err(SubError::MalformedContainer),
                                Some(b) => if b.track_number == track {
                                    Ok(Some((b, p2 + sz)))
                                } else {
                                    scan_blocks(data, p2 + sz, track)
                                },
                            }
                        } else {
                            scan_blocks(data, p2 + sz, track)
                        },
                    }
                },
            },
        }
    }
}

/// Streams the chosen track's blocks out of the container bytes.
pub struct BlockIterator {
    pub track_number: u64,
    pub data: Vec<u8>,
    pub pos: usize,
}

impl BlockIterator {
    pub open spec fn wf(&self) -> bool {
        self.pos <= self.data@.len()
    }

    /// Takes over the opened container, positioned after its prelude.
    pub fn from_webm(track_number: u64, file: MkvFile) -> (r: BlockIterator)
        requires
            file.wf(),
        ensures
            r.track_number == track_number,
            r.data@ == file.data@,
            r.pos == file.pos,
            r.wf(),
    {
        BlockIterator { track_number, data: file.data, pos: file.pos }
    }

    /// The next block of the chosen track, as `scan_blocks` lays it down;
    /// `None` when the container ends first.
    #[verifier::rlimit(100)]
    pub fn next_block(&mut self) -> (r: Result<Option<Block>, SubError>)
        requires
            old(self).wf(),
        ensures
            final(self).data@ == old(self).data@,
            final(self).track_number == old(self).track_number,
            final(self).wf(),
            match r {
                Ok(Some(b)) => scan_blocks(
                    old(self).data@,
                    old(self).pos as int,
                    old(self).track_number,
                ) matches Ok(Some(t)) && t.0 == b@ && t.1 == final(self).pos as int && old(
                    self,
                ).pos < final(self).pos,
                Ok(None) => scan_blocks(
                    old(self).data@,
                    old(self).pos as int,
                    old(self).track_number,
                ) matches Ok(o) && o is None,
                Err(e) => scan_blocks(
                    old(self).data@,
                    old(self).pos as int,
                    old(self).track_number,
                ) matches Err(e2) && e == e2,
            },
    {
        let n = self.data.len();
        let track = self.track_number;
        let mut c = ByteCursor::new(self.data.as_slice());
        let ok = c.skip(self.pos);
        proof {
            assert(ok);
        }
        loop
            invariant
                c.data@ == old(self).data@,
                c.wf(),
                n == old(self).data@.len(),
                track == old(self).track_number,
                self.data@ == old(self).data@,
                self.track_number == old(self).track_number,
                self.pos == old(self).pos,
                old(self).pos <= c.pos,
                scan_blocks(old(self).data@, old(self).pos as int, track) == scan_blocks(
                    old(self).data@,
                    c.pos as int,
                    track,
                ),
            decreases n - c.pos,
        {
            if c.is_at_end() {
                self.pos = n;
                return Ok(None);
            }
            let id = match read_vint_id(&mut c) {
                Some(v) => v,
                None => {
                    return Err(SubError::MalformedContainer);
                },
            };
            let sv = match read_vint_size(&mut c) {
                Some(v) => v,
                None => {
                    return Err(SubError::MalformedContainer);
                },
            };
            if id == ID_SEGMENT || id == ID_CLUSTER || id == ID_BLOCK_GROUP {
                continue ;
            }
            let sz = match sv {
                SizeVal::Known(sz) => sz,
                SizeVal::Unknown => {
                    return Err(SubError::MalformedContainer);
                },
            };
            if sz > n as u64 {
                return Err(SubError::MalformedContainer);
            }
            let frame = match c.take(sz as usize) {
                Some(s2) => s2,
                None => {
                    return Err(SubError::MalformedContainer);
                },
            };
            if id == ID_BLOCK || id == ID_SIMPLE_BLOCK {
                let mut fc = ByteCursor::new(frame);
                let tn = match read_vint_num(&mut fc) {
                    Some(v) => v,
                    None => {
                        return Err(SubError::MalformedContainer);
                    },
                };
                if frame.len() - fc.position() < 3 {
                    return Err(SubError::MalformedContainer);
                }
                let flags = frame[fc.position() + 2];
                let rest = vstd::slice::slice_subrange(frame, fc.position() + 3, frame.len());
                if tn == track {
                    let b2: u8 = (flags / 2) % 4;
                    let lacing: Option<Lacing> = if b2 == 0 {
                        None
                    } else if b2 == 1 {
                        Some(Lacing::Xiph)
                    } else if b2 == 2 {
                        Some(Lacing::FixedSize)
                    } else {
                        Some(Lacing::Ebml)
                    };
                    let payload = vstd::slice::slice_to_vec(rest);
                    let blk = Block { track_number: tn, lacing, payload };
                    proof {
                        assert(frame@.skip(fc.pos + 3) =~= rest@);
                        assert(frame_of(frame@) matches Some(m) && m == blk@);
                    }
                    self.pos = c.position();
                    return Ok(Some(blk));
                }
                proof {
                    assert(frame_of(frame@) is Some);
                }
            }
        }
    }
}

/// What one block decodes to under one encoding: laced blocks are
/// unsupported, presentation graphics and subpictures go through their
/// decoders, and an unknown codec yields nothing.
pub open spec fn block_decode(b: BlockModel, enc: EncModel) -> Result<
    Option<(Seq<u8>, int, int)>,
    SubError,
> {
    if b.lacing is Some {
        Err(SubError::UnsupportedLacing)
    } else {
        match enc {
            EncModel::PGS => crate::pgs::pgs_scan(b.payload, 0, None),
            EncModel::VOB { palette, .. } => crate::vob::spu_block(b.payload, palette),
            EncModel::Unknown(_) => Ok(None),
        }
    }
}

/// Decodes one block through the track's codec, as `block_decode` lays it
/// down.
pub fn decode_bitmap(block: &Block, track_info: &TrackInfo) -> (r: Result<
    Option<Bitmap>,
    SubError,
>)
    requires
        track_info.wf(),
    ensures
        match r {
            Ok(Some(bm)) => {
                &&& bm.wf()
                &&& block_decode(block@, track_info@.encoding) matches Ok(Some(t)) && t.0
                    == bm.pixels@ && t.1 == bm.width && t.2 == bm.height
            },
            Ok(None) => block_decode(block@, track_info@.encoding) matches Ok(o) && o is None,
            Err(e) => block_decode(block@, track_info@.encoding) matches Err(e2) && e == e2,
        },
{
    if block.lacing.is_some() {
        return Err(SubError::UnsupportedLacing);
    }
    match &track_info.encoding {
        KnownEncoding::PGS => crate::pgs::parse_segments(block.payload.as_slice()),
        KnownEncoding::VOB { palette, .. } => crate::vob::parse_block(
            block.payload.as_slice(),
            palette.as_slice(),
        ),
        KnownEncoding::Unknown(_) => Ok(None),
    }
}

/// The walk for the next decodable frame: blocks that fail to decode, or
/// decode to nothing, are passed over; container damage surfaces.
pub open spec fn next_bitmap_spec(data: Seq<u8>, p: int, track: u64, enc: EncModel) -> Result<
    Option<(Seq<u8>, int, int)>,
    SubError,
>
    decreases data.len() - p,
{
    match scan_blocks(data, p, track) {
        Err(e) => Err(e),
        Ok(None) => Ok(None),
        Ok(Some((b, p2))) => if p < p2 <= data.len() {
            match block_decode(b, enc) {
                Ok(Some(t)) => Ok(Some(t)),
                Ok(None) => next_bitmap_spec(data, p2, track, enc),
                Err(_) => next_bitmap_spec(data, p2, track, enc),
            }
        } else {
            Err(SubError::MalformedContainer)
        },
    }
}

/// Streams the decoded subtitle frames of one track.
pub struct SubtitleIterator {
    pub track_info: TrackInfo,
    pub block_iter: BlockIterator,
}

impl SubtitleIterator {
    pub open spec fn wf(&self) -> bool {
        &&& self.track_info.wf()
        &&& self.block_iter.wf()
    }

    /// The next decoded frame, as `next_bitmap_spec` lays it down: a block
    /// that fails to decode is logged off and skipped, container damage
    /// aborts the stream.
    pub fn next_bitmap(&mut self) -> (r: Result<Option<Bitmap>, SubError>)
        requires
            old(self).wf(),
        ensures
            final(self).wf(),
            final(self).track_info == old(self).track_info,
            final(self).block_iter.data@ == old(self).block_iter.data@,
            final(self).block_iter.track_number == old(self).block_iter.track_number,
            match r {
                Ok(Some(bm)) => {
                    &&& bm.wf()
                    &&& next_bitmap_spec(
                        old(self).block_iter.data@,
                        old(self).block_iter.pos as int,
                        old(self).block_iter.track_number,
                        old(self).track_info@.encoding,
                    ) matches Ok(Some(t)) && t.0 == bm.pixels@ && t.1 == bm.width && t.2
                        == bm.height
                },
                Ok(None) => next_bitmap_spec(
                    old(self).block_iter.data@,
                    old(self).block_iter.pos as int,
                    old(self).block_iter.track_number,
                    old(self).track_info@.encoding,
                ) matches Ok(o) && o is None,
                Err(e) => next_bitmap_spec(
                    old(self).block_iter.data@,
                    old(self).block_iter.pos as int,
                    old(self).block_iter.track_number,
                    old(self).track_info@.encoding,
                ) matches Err(e2) && e == e2,
            },
    {
        let ghost data = self.block_iter.data@;
        let ghost track = self.block_iter.track_number;
        let ghost enc = self.track_info@.encoding;
        loop
            invariant
                self.wf(),
                self.track_info == old(self).track_info,
                data == old(self).block_iter.data@,
                track == old(self).block_iter.track_number,
                enc == old(self).track_info@.encoding,
                self.block_iter.data@ == data,
                self.block_iter.track_number == track,
                next_bitmap_spec(
                    data,
                    old(self).block_iter.pos as int,
                    track,
                    enc,
                ) == next_bitmap_spec(data, self.block_iter.pos as int, track, enc),
            decreases data.len() - self.block_iter.pos,
        {
            let blk = match self.block_iter.next_block() {
                Ok(Some(b)) => b,
                Ok(None) => {
                    return Ok(None);
                },
                Err(e) => {
                    return Err(e);
                },
            };
            match decode_bitmap(&blk, &self.track_info) {
                Ok(Some(bm)) => {
                    return Ok(Some(bm));
                },
                Ok(None) => {},
                Err(_) => {
                    // a malformed frame is skipped; the file goes on
                },
            }
        }
    }
}

/// The last collected track whose language matches, as the inventory
/// order has it.
pub open spec fn chosen_by_lang(tracks: Seq<TrackModel>, lang: LangModel) -> Option<TrackModel>
    decreases tracks.len(),
{
    if tracks.len() == 0 {
        None
    } else if tracks.last().language == lang {
        Some(tracks.last())
    } else {
        chosen_by_lang(tracks.drop_last(), lang)
    }
}

/// The last collected track with this number.
pub open spec fn chosen_by_number(tracks: Seq<TrackModel>, n: u64) -> Option<TrackModel>
    decreases tracks.len(),
{
    if tracks.len() == 0 {
        None
    } else if tracks.last().track_number == n {
        Some(tracks.last())
    } else {
        chosen_by_number(tracks.drop_last(), n)
    }
}

/// Whether two folded languages are the same.
fn lang_eq(a: &KnownLanguage, b: &KnownLanguage) -> (r: bool)
    ensures
        r == (a@ == b@),
{
    match (a, b) {
        (KnownLanguage::English, KnownLanguage::English) => true,
        (KnownLanguage::Unknown(x), KnownLanguage::Unknown(y)) => str_eq(x.as_str(), y.as_str()),
        _ => false,
    }
}

impl MkvFile {
    /// Hands the container to a subtitle stream for the last track in
    /// this language, when that track's codec is one of the two bitmap
    /// codecs.
    pub fn subtitle_iter(self, language: KnownLanguage) -> (r: Option<SubtitleIterator>)
        requires
            self.wf(),
        ensures
            match r {
                Some(it) => {
                    &&& it.wf()
                    &&& chosen_by_lang(tracks_view(self.track_infos@), language@) matches Some(
                        t,
                    ) && it.track_info@ == t
                    &&& it.block_iter.data@ == self.data@
                    &&& it.block_iter.pos == self.pos
                    &&& it.block_iter.track_number == it.track_info@.track_number
                    &&& (it.track_info@.encoding is PGS || it.track_info@.encoding matches
                        EncModel::VOB { .. })
                },
                None => chosen_by_lang(tracks_view(self.track_infos@), language@) matches Some(
                    t,
                ) ==> (t.encoding matches EncModel::Unknown(_)),
            },
    {
        let mut chosen: Option<usize> = None;
        let mut i: usize = 0;
        while i < self.track_infos.len()
            invariant
                i <= self.track_infos@.len(),
                (match chosen {
                    Some(k) => k < i && chosen_by_lang(
                        tracks_view(self.track_infos@).take(i as int),
                        language@,
                    ) == Some(self.track_infos@[k as int]@),
                    None => chosen_by_lang(
                        tracks_view(self.track_infos@).take(i as int),
                        language@,
                    ) is None,
                }),
            decreases self.track_infos@.len() - i,
        {
            proof {
                assert(tracks_view(self.track_infos@).take(i + 1).drop_last() =~= tracks_view(
                    self.track_infos@,
                ).take(i as int));
                assert(tracks_view(self.track_infos@).take(i + 1).last() == self.track_infos@[
                    i as int]@);
            }
            if lang_eq(&self.track_infos[i].language, &language) {
                chosen = Some(i);
            }
            i = i + 1;
        }
        proof {
            assert(tracks_view(self.track_infos@).take(self.track_infos@.len() as int)
                =~= tracks_view(self.track_infos@));
        }
        match chosen {
            Some(k) => {
                let info = clone_track(&self.track_infos[k]);
                self.subtitle_iter_from_track_info(info)
            },
            None => None,
        }
    }

    /// The same, for a track named by number.
    pub fn subtitle_iter_from_track_number(self, track_number: u64) -> (r: Option<
        SubtitleIterator,
    >)
        requires
            self.wf(),
        ensures
            match r {
                Some(it) => {
                    &&& it.wf()
                    &&& chosen_by_number(tracks_view(self.track_infos@), track_number) matches
                        Some(t) && it.track_info@ == t
                    &&& it.block_iter.data@ == self.data@
                    &&& it.block_iter.pos == self.pos
                    &&& it.block_iter.track_number == it.track_info@.track_number
                    &&& (it.track_info@.encoding is PGS || it.track_info@.encoding matches
                        EncModel::VOB { .. })
                },
                None => chosen_by_number(
                    tracks_view(self.track_infos@),
                    track_number,
                ) matches Some(t) ==> (t.encoding matches EncModel::Unknown(_)),
            },
    {
        let mut chosen: Option<usize> = None;
        let mut i: usize = 0;
        while i < self.track_infos.len()
            invariant
                i <= self.track_infos@.len(),
                (match chosen {
                    Some(k) => k < i && chosen_by_number(
                        tracks_view(self.track_infos@).take(i as int),
                        track_number,
                    ) == Some(self.track_infos@[k as int]@),
                    None => chosen_by_number(
                        tracks_view(self.track_infos@).take(i as int),
                        track_number,
                    ) is None,
                }),
            decreases self.track_infos@.len() - i,
        {
            proof {
                assert(tracks_view(self.track_infos@).take(i + 1).drop_last() =~= tracks_view(
                    self.track_infos@,
                ).take(i as int));
                assert(tracks_view(self.track_infos@).take(i + 1).last() == self.track_infos@[
                    i as int]@);
            }
            if self.track_infos[i].track_number == track_number {
                chosen = Some(i);
            }
            i = i + 1;
        }
        proof {
            assert(tracks_view(self.track_infos@).take(self.track_infos@.len() as int)
                =~= tracks_view(self.track_infos@));
        }
        match chosen {
            Some(k) => {
                let info = clone_track(&self.track_infos[k]);
                self.subtitle_iter_from_track_info(info)
            },
            None => None,
        }
    }

    /// Wraps the container into a frame stream for one already-chosen
    /// track, when its codec is a bitmap codec.
    fn subtitle_iter_from_track_info(self, track_info: TrackInfo) -> (r: Option<
        SubtitleIterator,
    >)
        requires
            self.wf(),
            track_info.wf(),
        ensures
            match r {
                Some(it) => {
                    &&& it.wf()
                    &&& it.track_info@ == track_info@
                    &&& it.block_iter.data@ == self.data@
                    &&& it.block_iter.pos == self.pos
                    &&& it.block_iter.track_number == track_info.track_number
                    &&& (track_info@.encoding is PGS || track_info@.encoding matches
                        EncModel::VOB { .. })
                },
                None => track_info@.encoding matches EncModel::Unknown(_),
            },
    {
        let is_bitmap = match &track_info.encoding {
            KnownEncoding::PGS => true,
            KnownEncoding::VOB { .. } => true,
            KnownEncoding::Unknown(_) => false,
        };
        if is_bitmap {
            let track_number = track_info.track_number;
            Some(
                SubtitleIterator {
                    track_info,
                    block_iter: BlockIterator::from_webm(track_number, self),
                },
            )
        } else {
            None
        }
    }

    /// Hands the container to a raw block stream for the last track in
    /// this language.
    pub fn block_iter(self, language: KnownLanguage) -> (r: Option<BlockIterator>)
        requires
            self.wf(),
        ensures
            match r {
                Some(it) => {
                    &&& it.wf()
                    &&& chosen_by_lang(tracks_view(self.track_infos@), language@) matches Some(
                        t,
                    ) && it.track_number == t.track_number
                    &&& it.data@ == self.data@
                    &&& it.pos == self.pos
                },
                None => chosen_by_lang(tracks_view(self.track_infos@), language@) is None,
            },
    {
        let mut chosen: Option<usize> = None;
        let mut i: usize = 0;
        while i < self.track_infos.len()
            invariant
                i <= self.track_infos@.len(),
                (match chosen {
                    Some(k) => k < i && chosen_by_lang(
                        tracks_view(self.track_infos@).take(i as int),
                        language@,
                    ) == Some(self.track_infos@[k as int]@),
                    None => chosen_by_lang(
                        tracks_view(self.track_infos@).take(i as int),
                        language@,
                    ) is None,
                }),
            decreases self.track_infos@.len() - i,
        {
            proof {
                assert(tracks_view(self.track_infos@).take(i + 1).drop_last() =~= tracks_view(
                    self.track_infos@,
                ).take(i as int));
                assert(tracks_view(self.track_infos@).take(i + 1).last() == self.track_infos@[
                    i as int]@);
            }
            if lang_eq(&self.track_infos[i].language, &language) {
                chosen = Some(i);
            }
            i = i + 1;
        }
        proof {
            assert(tracks_view(self.track_infos@).take(self.track_infos@.len() as int)
                =~= tracks_view(self.track_infos@));
        }
        match chosen {
            Some(k) => {
                let tn = self.track_infos[k].track_number;
                Some(BlockIterator::from_webm(tn, self))
            },
            None => None,
        }
    }
}

/// A deep copy of one track.
fn clone_track(t: &TrackInfo) -> (r: TrackInfo)
    ensures
        r@ == t@,
        r.wf() == t.wf(),
{
    let language = match &t.language {
        KnownLanguage::English => KnownLanguage::English,
        KnownLanguage::Unknown(s) => KnownLanguage::Unknown(s.clone()),
    };
    let encoding = match &t.encoding {
        KnownEncoding::PGS => KnownEncoding::PGS,
        KnownEncoding::VOB { width, height, palette } => {
            let mut pal: Vec<Rgba> = Vec::new();
            let mut i: usize = 0;
            while i < palette.len()
                invariant
                    i <= palette@.len(),
                    pal@ == palette@.take(i as int),
                decreases palette@.len() - i,
            {
                pal.push(palette[i]);
                proof {
                    assert(pal@ =~= palette@.take(i + 1));
                }
                i = i + 1;
            }
            proof {
                assert(palette@.take(palette@.len() as int) =~= palette@);
            }
            KnownEncoding::VOB { width: *width, height: *height, palette: pal }
        },
        KnownEncoding::Unknown(s) => KnownEncoding::Unknown(s.clone()),
    };
    TrackInfo { track_number: t.track_number, encoding, language }
}

} // verus!
