//! Rules used while scanning a music library: which files are audio, which
//! embedded picture is a track's cover, how a cover becomes a data URI, and
//! a memo of covers by track path.
use base64::Engine;
use vstd::prelude::*;
use vstd::string::StringExecFns;

verus! {

/// Lower-case form of a text, as `str::to_lowercase` computes it.
pub uninterp spec fn lowercase_of(s: Seq<char>) -> Seq<char>;

/// Padded standard base64 text of some bytes.
pub uninterp spec fn base64_of(bytes: Seq<u8>) -> Seq<char>;

/// Relies on `str::to_lowercase`: the result depends on the text alone.
#[verifier::external_body]
fn lowercase(s: &str) -> (r: String)
    ensures
        r@ == lowercase_of(s@),
{
    s.to_lowercase()
}

/// Relies on `base64::engine::general_purpose::STANDARD.encode`, which
/// panics only when the encoded length overflows `usize`.
#[verifier::external_body]
fn encode_base64(data: &Vec<u8>) -> (r: String)
    requires
        data@.len() / 3 * 4 + 4 <= usize::MAX,
    ensures
        r@ == base64_of(data@),
{
    base64::engine::general_purpose::STANDARD.encode(data)
}

/// Extensions, in lower case, of the files taken for audio.
pub open spec fn audio_extensions() -> Seq<Seq<char>> {
    seq![
        "mp3"@,
        "flac"@,
        "wav"@,
        "ogg"@,
        "m4a"@,
        "aac"@,
        "wma"@,
        "opus"@,
        "aiff"@,
        "alac"@,
        "mpc"@,
    ]
}

/// Whether a lower-case extension is one of the audio extensions.
pub fn is_listed_extension(lower: &str) -> (r: bool)
    ensures
        r == audio_extensions().contains(lower@),
{
    let key = lower.to_owned();
    let names: Vec<&str> = vec!["mp3", "flac", "wav", "ogg", "m4a", "aac", "wma", "opus", "aiff", "alac", "mpc"];
    let mut i: usize = 0;
    while i < names.len()
        invariant
            names@.len() == audio_extensions().len(),
            forall|k: int| 0 <= k < names@.len() ==> names@[k]@ == audio_extensions()[k],
            i <= names@.len(),
            key@ == lower@,
            forall|k: int| 0 <= k < i ==> audio_extensions()[k] != lower@,
        decreases names@.len() - i,
    {
        let candidate = names[i].to_owned();
        if candidate == key {
            assert(audio_extensions()[i as int] == lower@);
            return true;
        }
        i = i + 1;
    }
    false
}

/// Whether a file extension names an audio file, whatever its case.
pub fn is_audio_extension(ext: &str) -> (r: bool)
    ensures
        r == audio_extensions().contains(lowercase_of(ext@)),
{
    let lower = lowercase(ext);
    is_listed_extension(lower.as_str())
}

/// What an embedded picture shows, as far as cover selection cares.
#[derive(Debug, Clone, Copy, PartialEq, Eq, Structural)]
pub enum PictureKind {
    CoverFront,
    Other,
    BandLogo,
    Ignored,
}

/// Picture kinds taken for a cover when no front cover is embedded.
pub open spec fn is_fallback_cover(k: PictureKind) -> bool {
    k == PictureKind::Other || k == PictureKind::BandLogo
}

/// Index of the picture to use as cover: the first front cover; without
/// one, the first picture of a fallback kind; `None` when neither exists.
pub fn cover_picture(kinds: &Vec<PictureKind>) -> (r: Option<usize>)
    ensures
        match r {
            Some(i) => i < kinds@.len() && ((kinds@[i as int] == PictureKind::CoverFront && forall|
                j: int,
            | 0 <= j < i ==> kinds@[j] != PictureKind::CoverFront) || ((forall|j: int|
                0 <= j < kinds@.len() ==> kinds@[j] != PictureKind::CoverFront) && is_fallback_cover(
                kinds@[i as int],
            ) && forall|j: int| 0 <= j < i ==> !is_fallback_cover(kinds@[j]))),
            None => forall|j: int|
                0 <= j < kinds@.len() ==> kinds@[j] != PictureKind::CoverFront && !is_fallback_cover(
                    kinds@[j],
                ),
        },
{
    let mut i: usize = 0;
    while i < kinds.len()
        invariant
            i <= kinds@.len(),
            forall|j: int| 0 <= j < i ==> kinds@[j] != PictureKind::CoverFront,
        decreases kinds@.len() - i,
    {
        if kinds[i] == PictureKind::CoverFront {
            return Some(i);
        }
        i = i + 1;
    }
    let mut k: usize = 0;
    while k < kinds.len()
        invariant
            k <= kinds@.len(),
            forall|j: int| 0 <= j < kinds@.len() ==> kinds@[j] != PictureKind::CoverFront,
            forall|j: int| 0 <= j < k ==> !is_fallback_cover(kinds@[j]),
        decreases kinds@.len() - k,
    {
        if kinds[k] == PictureKind::Other || kinds[k] == PictureKind::BandLogo {
            return Some(k);
        }
        k = k + 1;
    }
    None
}

/// Names of the image files looked for beside a track, in order.
pub fn cover_file_names() -> (r: Vec<&'static str>)
    ensures
        r@.len() == 4,
        r@[0]@ == "Cover.jpg"@,
        r@[1]@ == "Cover.png"@,
        r@[2]@ == "cover.jpg"@,
        r@[3]@ == "cover.png"@,
{
    vec!["Cover.jpg", "Cover.png", "cover.jpg", "cover.png"]
}

/// MIME type of an image file with extension `ext`.
pub fn cover_mime(ext: &str) -> (r: &'static str)
    ensures
        r@ == if ext@ == "png"@ {
            "image/png"@
        } else if ext@ == "jpg"@ || ext@ == "jpeg"@ {
            "image/jpeg"@
        } else {
            "application/octet-stream"@
        },
{
    let e = ext.to_owned();
    if e == "png".to_owned() {
        "image/png"
    } else if e == "jpg".to_owned() || e == "jpeg".to_owned() {
        "image/jpeg"
    } else {
        "application/octet-stream"
    }
}

/// `data:` URI of type `mime` around base64 text `encoded`.
pub fn data_uri(mime: &str, encoded: &str) -> (r: String)
    ensures
        r@ == "data:"@ + mime@ + ";base64,"@ + encoded@,
{
    let mut uri = String::from_str("data:");
    uri.append(mime);
    uri.append(";base64,");
    uri.append(encoded);
    uri
}

/// `data:` URI carrying image bytes of type `mime` in base64.
pub fn cover_data_uri(mime: &str, data: &Vec<u8>) -> (r: String)
    requires
        data@.len() / 3 * 4 + 4 <= usize::MAX,
    ensures
        r@ == "data:"@ + mime@ + ";base64,"@ + base64_of(data@),
{
    let encoded = encode_base64(data);
    data_uri(mime, encoded.as_str())
}

/// A cover ready for display.
pub struct CoverArt {
    /// The picture as a `data:` URI.
    pub base64: String,
    /// Where a copy of the picture is kept on disk, if anywhere.
    pub cache: Option<String>,
}

impl CoverArt {
    /// The picture's `data:` URI.
    pub fn as_base64(&self) -> (r: &str)
        ensures
            r@ == self.base64@,
    {
        self.base64.as_str()
    }
}

/// Covers by key, a later entry taking precedence over an earlier one.
pub open spec fn entries_map(s: Seq<(String, CoverArt)>) -> Map<Seq<char>, CoverArt>
    decreases s.len(),
{
    if s.len() == 0 {
        Map::empty()
    } else {
        entries_map(s.drop_last()).insert(s.last().0@, s.last().1)
    }
}

/// A key is mapped exactly when some entry holds it, and with unique keys
/// it maps to that entry's cover.
proof fn lemma_entries_map(s: Seq<(String, CoverArt)>, key: Seq<char>)
    requires
        forall|i: int, j: int| 0 <= i < j < s.len() ==> s[i].0@ != s[j].0@,
    ensures
        entries_map(s).contains_key(key) <==> exists|i: int| 0 <= i < s.len() && s[i].0@ == key,
        forall|i: int| 0 <= i < s.len() && s[i].0@ == key ==> entries_map(s)[key] == s[i].1,
    decreases s.len(),
{
    if s.len() > 0 {
        let t = s.drop_last();
        lemma_entries_map(t, key);
        if s.last().0@ == key {
            assert(s[s.len() - 1].0@ == key);
        }
        if exists|i: int| 0 <= i < s.len() && s[i].0@ == key {
            let i = choose|i: int| 0 <= i < s.len() && s[i].0@ == key;
            if i < t.len() {
                assert(t[i] == s[i]);
            }
        }
        if entries_map(s).contains_key(key) && s.last().0@ != key {
            let i = choose|i: int| 0 <= i < t.len() && t[i].0@ == key;
            assert(s[i].0@ == key);
        }
        if exists|i: int| 0 <= i < t.len() && t[i].0@ == key {
            let i = choose|i: int| 0 <= i < t.len() && t[i].0@ == key;
            assert(s[i] == t[i]);
        }
        assert forall|i: int| 0 <= i < s.len() && s[i].0@ == key implies entries_map(s)[key]
            == s[i].1 by {
            if i < t.len() {
                assert(s[i] == t[i]);
            }
        }
    }
}

/// Memo of covers keyed by track path.
pub struct CoverCache {
    entries: Vec<(String, CoverArt)>,
}

impl View for CoverCache {
    type V = Map<Seq<char>, CoverArt>;

    closed spec fn view(&self) -> Map<Seq<char>, CoverArt> {
        entries_map(self.entries@)
    }
}

impl CoverCache {
    /// Internal consistency: no key is held twice.
    pub closed spec fn wf(&self) -> bool {
        forall|i: int, j: int|
            0 <= i < j < self.entries@.len() ==> self.entries@[i].0@ != self.entries@[j].0@
    }

    /// An empty memo.
    pub fn new() -> (r: CoverCache)
        ensures
            r.wf(),
            r@ == Map::<Seq<char>, CoverArt>::empty(),
    {
        CoverCache { entries: Vec::new() }
    }

    /// The cover kept under `uuid`, if any.
    pub fn lookup(&self, uuid: &str) -> (r: Option<&CoverArt>)
        requires
            self.wf(),
        ensures
            match r {
                Some(c) => self@.contains_key(uuid@) && self@[uuid@] == *c,
                None => !self@.contains_key(uuid@),
            },
    {
        let key = uuid.to_owned();
        let mut i: usize = 0;
        proof {
            lemma_entries_map(self.entries@, uuid@);
        }
        while i < self.entries.len()
            invariant
                self.wf(),
                i <= self.entries@.len(),
                key@ == uuid@,
                forall|k: int| 0 <= k < i ==> self.entries@[k].0@ != uuid@,
            decreases self.entries@.len() - i,
        {
            if self.entries[i].0 == key {
                assert(self.entries@[i as int].0@ == uuid@);
                proof {
                    lemma_entries_map(self.entries@, uuid@);
                }
                return Some(&self.entries[i].1);
            }
            i = i + 1;
        }
        None
    }

    /// Keeps `cover` under `uuid` unless a cover is kept there already.
    pub fn add_entry(&mut self, uuid: String, cover: CoverArt)
        requires
            old(self).wf(),
        ensures
            final(self).wf(),
            final(self)@ == if old(self)@.contains_key(uuid@) {
                old(self)@
            } else {
                old(self)@.insert(uuid@, cover)
            },
    {
        if self.lookup(uuid.as_str()).is_some() {
            return;
        }
        proof {
            lemma_entries_map(self.entries@, uuid@);
        }
        let ghost before = self.entries@;
        self.entries.push((uuid, cover));
        proof {
            assert(self.entries@.drop_last() =~= before);
        }
    }

    /// Forgets every cover.
    pub fn clear(&mut self)
        ensures
            final(self).wf(),
            final(self)@ == Map::<Seq<char>, CoverArt>::empty(),
    {
        self.entries.clear();
    }
}

} // verus!
