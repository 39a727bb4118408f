//! The media catalog: an immutable snapshot of the published hierarchy, with
//! deterministic object IDs and update IDs, and the classification of files
//! by extension.
use vstd::prelude::*;

use crate::config::MediaCategory;
use crate::order::{bytes_lt, compare_str, sort_by, str_lt, Order};
use crate::text::{
    chars_eq_str, hex_fixed, last_index, push_char, push_hex_fixed, rfind_char, to_ascii_lower,
    ascii_lower_seq,
};
use vstd::utf8::encode_utf8;
use vstd::wrapping::u64_specs::wrapping_mul;

verus! {

/// The object ID of the root container.
pub const ROOT_ID: &'static str = "0";

/// How a recognized media file is published.
#[derive(Debug, Clone, Copy)]
pub struct MediaKind {
    pub category: MediaCategory,
    pub mime_type: &'static str,
    pub upnp_class: &'static str,
    pub dlna_profile: Option<&'static str>,
}

/// A catalog object is either a container (a directory) or a media item.
#[derive(Debug, Clone, Copy)]
pub enum EntryKind {
    Container,
    Media(MediaKind),
}

/// One object of the catalog.
#[derive(Debug)]
pub struct Entry {
    pub id: String,
    pub parent_id: String,
    pub title: String,
    /// The filesystem path, as the operating system's bytes.
    pub path: Vec<u8>,
    pub kind: EntryKind,
    pub size: u64,
    pub modified_seconds: u64,
}

/// The content of a `MediaKind`, with its texts as character sequences.
pub ghost struct MediaKindView {
    pub category: MediaCategory,
    pub mime_type: Seq<char>,
    pub upnp_class: Seq<char>,
    pub dlna_profile: Option<Seq<char>>,
}

pub ghost enum EntryKindView {
    Container,
    Media(MediaKindView),
}

/// The content of an `Entry`.
pub ghost struct EntryView {
    pub id: Seq<char>,
    pub parent_id: Seq<char>,
    pub title: Seq<char>,
    pub path: Seq<u8>,
    pub kind: EntryKindView,
    pub size: u64,
    pub modified_seconds: u64,
}

impl View for MediaKind {
    type V = MediaKindView;

    open spec fn view(&self) -> MediaKindView {
        MediaKindView {
            category: self.category,
            mime_type: self.mime_type@,
            upnp_class: self.upnp_class@,
            dlna_profile: match self.dlna_profile {
                Some(p) => Some(p@),
                None => None,
            },
        }
    }
}

impl View for EntryKind {
    type V = EntryKindView;

    open spec fn view(&self) -> EntryKindView {
        match self {
            EntryKind::Container => EntryKindView::Container,
            EntryKind::Media(m) => EntryKindView::Media(m@),
        }
    }
}

impl View for Entry {
    type V = EntryView;

    open spec fn view(&self) -> EntryView {
        EntryView {
            id: self.id@,
            parent_id: self.parent_id@,
            title: self.title@,
            path: self.path@,
            kind: self.kind@,
            size: self.size,
            modified_seconds: self.modified_seconds,
        }
    }
}

impl EntryKind {
    pub open spec fn is_container(&self) -> bool {
        self matches EntryKind::Container
    }
}

/// Why a scan failed.
#[derive(Debug)]
pub enum ScanError {
    /// A share's root could not be resolved or inspected; `message` is the
    /// operating system's report.
    ResolveShare { name: String, path: Vec<u8>, message: String },
    /// Two paths produced the same object ID.
    IdCollision { first: Vec<u8>, second: Vec<u8> },
}

// ---------------------------------------------------------------------------
// Classification by extension
// ---------------------------------------------------------------------------

/// A path's bytes read one character per byte, so that ASCII bytes keep their
/// meaning and every other byte becomes a non-ASCII character.
pub open spec fn byte_chars(b: Seq<u8>) -> Seq<char> {
    Seq::new(b.len(), |i: int| b[i] as char)
}

/// Whether `s` ends in a `.` that is a whole component: the path is `.` or
/// ends in `/.`.
pub open spec fn ends_in_cur_dir(s: Seq<char>) -> bool {
    s.len() > 0 && s.last() == '.' && (s.len() == 1 || s[s.len() - 2] == '/')
}

/// The file name of a `/`-separated path, as `Path::file_name` finds it:
/// repeated and trailing separators and `.` components are skipped; the
/// last remaining component is the name, and there is none (the empty
/// sequence) when that component is `..` or no component is left.
pub open spec fn final_component(s: Seq<char>) -> Seq<char>
    decreases s.len(),
{
    if s.len() > 0 && (s.last() == '/' || ends_in_cur_dir(s)) {
        final_component(s.drop_last())
    } else {
        let c = match last_index(s, '/') {
            Some(i) => s.skip(i + 1),
            None => s,
        };
        if c == ".."@ {
            Seq::empty()
        } else {
            c
        }
    }
}

/// The text after the last `.` of the final component, when that `.` is not
/// the component's first character (a leading dot marks a hidden name, not
/// an extension).
pub open spec fn media_extension(path: Seq<u8>) -> Option<Seq<char>> {
    let f = final_component(byte_chars(path));
    match last_index(f, '.') {
        Some(i) => if i > 0 {
            Some(f.skip(i + 1))
        } else {
            None
        },
        None => None,
    }
}

pub open spec fn audio_kind(mime: &'static str) -> MediaKind {
    MediaKind {
        category: MediaCategory::Audio,
        mime_type: mime,
        upnp_class: "object.item.audioItem.musicTrack",
        dlna_profile: None,
    }
}

pub open spec fn video_kind(mime: &'static str) -> MediaKind {
    MediaKind {
        category: MediaCategory::Video,
        mime_type: mime,
        upnp_class: "object.item.videoItem",
        dlna_profile: None,
    }
}

pub open spec fn image_kind(mime: &'static str) -> MediaKind {
    MediaKind {
        category: MediaCategory::Image,
        mime_type: mime,
        upnp_class: "object.item.imageItem.photo",
        dlna_profile: None,
    }
}

/// The media kind for a lower-case extension.
pub open spec fn kind_for_extension(e: Seq<char>) -> Option<MediaKind> {
    if e == "mp3"@ {
        Some(audio_kind("audio/mpeg"))
    } else if e == "m4a"@ || e == "mp4a"@ {
        Some(audio_kind("audio/mp4"))
    } else if e == "aac"@ {
        Some(audio_kind("audio/aac"))
    } else if e == "flac"@ {
        Some(audio_kind("audio/flac"))
    } else if e == "wav"@ {
        Some(audio_kind("audio/wav"))
    } else if e == "ogg"@ || e == "oga"@ {
        Some(audio_kind("audio/ogg"))
    } else if e == "mp4"@ || e == "m4v"@ {
        Some(video_kind("video/mp4"))
    } else if e == "mkv"@ {
        Some(video_kind("video/x-matroska"))
    } else if e == "avi"@ {
        Some(video_kind("video/x-msvideo"))
    } else if e == "mpeg"@ || e == "mpg"@ || e == "mpe"@ {
        Some(video_kind("video/mpeg"))
    } else if e == "ts"@ || e == "m2ts"@ || e == "mts"@ {
        Some(video_kind("video/mp2t"))
    } else if e == "mov"@ {
        Some(video_kind("video/quicktime"))
    } else if e == "webm"@ {
        Some(video_kind("video/webm"))
    } else if e == "jpg"@ || e == "jpeg"@ {
        Some(image_kind("image/jpeg"))
    } else if e == "png"@ {
        Some(image_kind("image/png"))
    } else if e == "gif"@ {
        Some(image_kind("image/gif"))
    } else {
        None
    }
}

/// Whether a classification is the given category and MIME type, with the
/// UPnP class of that category and no DLNA profile.
pub open spec fn classified(kind: Option<MediaKind>, category: MediaCategory, mime: Seq<char>) -> bool {
    &&& kind matches Some(k)
    &&& k.category == category
    &&& k.mime_type@ == mime
    &&& k.upnp_class@ == match category {
        MediaCategory::Audio => "object.item.audioItem.musicTrack"@,
        MediaCategory::Video => "object.item.videoItem"@,
        MediaCategory::Image => "object.item.imageItem.photo"@,
    }
    &&& k.dlna_profile is None
}

/// Whether `x` is one of the extensions the server publishes.
pub open spec fn listed_extension(x: Seq<char>) -> bool {
    x == "mp3"@ || x == "m4a"@ || x == "mp4a"@ || x == "aac"@ || x == "flac"@ || x == "wav"@ || x == "ogg"@ || x == "oga"@ || x == "mp4"@ || x == "m4v"@ || x == "mkv"@ || x == "avi"@ || x == "mpeg"@ || x == "mpg"@ || x == "mpe"@ || x == "ts"@ || x == "m2ts"@ || x == "mts"@ || x == "mov"@ || x == "webm"@ || x == "jpg"@ || x == "jpeg"@ || x == "png"@ || x == "gif"@
}

/// The extensions the server publishes, each with its category and MIME
/// type; every other extension is not media.
pub proof fn lemma_extension_table(x: Seq<char>)
    ensures
        x == "mp3"@ ==> classified(kind_for_extension(x), MediaCategory::Audio, "audio/mpeg"@),
        x == "m4a"@ ==> classified(kind_for_extension(x), MediaCategory::Audio, "audio/mp4"@),
        x == "mp4a"@ ==> classified(kind_for_extension(x), MediaCategory::Audio, "audio/mp4"@),
        x == "aac"@ ==> classified(kind_for_extension(x), MediaCategory::Audio, "audio/aac"@),
        x == "flac"@ ==> classified(kind_for_extension(x), MediaCategory::Audio, "audio/flac"@),
        x == "wav"@ ==> classified(kind_for_extension(x), MediaCategory::Audio, "audio/wav"@),
        x == "ogg"@ ==> classified(kind_for_extension(x), MediaCategory::Audio, "audio/ogg"@),
        x == "oga"@ ==> classified(kind_for_extension(x), MediaCategory::Audio, "audio/ogg"@),
        x == "mp4"@ ==> classified(kind_for_extension(x), MediaCategory::Video, "video/mp4"@),
        x == "m4v"@ ==> classified(kind_for_extension(x), MediaCategory::Video, "video/mp4"@),
        x == "mkv"@ ==> classified(kind_for_extension(x), MediaCategory::Video, "video/x-matroska"@),
        x == "avi"@ ==> classified(kind_for_extension(x), MediaCategory::Video, "video/x-msvideo"@),
        x == "mpeg"@ ==> classified(kind_for_extension(x), MediaCategory::Video, "video/mpeg"@),
        x == "mpg"@ ==> classified(kind_for_extension(x), MediaCategory::Video, "video/mpeg"@),
        x == "mpe"@ ==> classified(kind_for_extension(x), MediaCategory::Video, "video/mpeg"@),
        x == "ts"@ ==> classified(kind_for_extension(x), MediaCategory::Video, "video/mp2t"@),
        x == "m2ts"@ ==> classified(kind_for_extension(x), MediaCategory::Video, "video/mp2t"@),
        x == "mts"@ ==> classified(kind_for_extension(x), MediaCategory::Video, "video/mp2t"@),
        x == "mov"@ ==> classified(kind_for_extension(x), MediaCategory::Video, "video/quicktime"@),
        x == "webm"@ ==> classified(kind_for_extension(x), MediaCategory::Video, "video/webm"@),
        x == "jpg"@ ==> classified(kind_for_extension(x), MediaCategory::Image, "image/jpeg"@),
        x == "jpeg"@ ==> classified(kind_for_extension(x), MediaCategory::Image, "image/jpeg"@),
        x == "png"@ ==> classified(kind_for_extension(x), MediaCategory::Image, "image/png"@),
        x == "gif"@ ==> classified(kind_for_extension(x), MediaCategory::Image, "image/gif"@),
        kind_for_extension(x) is Some <==> listed_extension(x),
{
    assert(x == "mp3"@ ==> classified(kind_for_extension(x), MediaCategory::Audio, "audio/mpeg"@)) by {
        reveal_strlit("mp3");
    }
    assert(x == "m4a"@ ==> classified(kind_for_extension(x), MediaCategory::Audio, "audio/mp4"@)) by {
        reveal_strlit("mp3");
        reveal_strlit("m4a");
        assert("m4a"@[1] != "mp3"@[1]);
    }
    assert(x == "mp4a"@ ==> classified(kind_for_extension(x), MediaCategory::Audio, "audio/mp4"@)) by {
        reveal_strlit("mp3");
        reveal_strlit("m4a");
        reveal_strlit("mp4a");
        assert("mp4a"@[2] != "mp3"@[2]);
        assert("mp4a"@[1] != "m4a"@[1]);
    }
    assert(x == "aac"@ ==> classified(kind_for_extension(x), MediaCategory::Audio, "audio/aac"@)) by {
        reveal_strlit("mp3");
        reveal_strlit("m4a");
        reveal_strlit("mp4a");
        reveal_strlit("aac");
        assert("aac"@[0] != "mp3"@[0]);
        assert("aac"@[0] != "m4a"@[0]);
        assert("aac"@[0] != "mp4a"@[0]);
    }
    assert(x == "flac"@ ==> classified(kind_for_extension(x), MediaCategory::Audio, "audio/flac"@)) by {
        reveal_strlit("mp3");
        reveal_strlit("m4a");
        reveal_strlit("mp4a");
        reveal_strlit("aac");
        reveal_strlit("flac");
        assert("flac"@[0] != "mp3"@[0]);
        assert("flac"@[0] != "m4a"@[0]);
        assert("flac"@[0] != "mp4a"@[0]);
        assert("flac"@[0] != "aac"@[0]);
    }
    assert(x == "wav"@ ==> classified(kind_for_extension(x), MediaCategory::Audio, "audio/wav"@)) by {
        reveal_strlit("mp3");
        reveal_strlit("m4a");
        reveal_strlit("mp4a");
        reveal_strlit("aac");
        reveal_strlit("flac");
        reveal_strlit("wav");
        assert("wav"@[0] != "mp3"@[0]);
        assert("wav"@[0] != "m4a"@[0]);
        assert("wav"@[0] != "mp4a"@[0]);
        assert("wav"@[0] != "aac"@[0]);
        assert("wav"@[0] != "flac"@[0]);
    }
    assert(x == "ogg"@ ==> classified(kind_for_extension(x), MediaCategory::Audio, "audio/ogg"@)) by {
        reveal_strlit("mp3");
        reveal_strlit("m4a");
        reveal_strlit("mp4a");
        reveal_strlit("aac");
        reveal_strlit("flac");
        reveal_strlit("wav");
        reveal_strlit("ogg");
        assert("ogg"@[0] != "mp3"@[0]);
        assert("ogg"@[0] != "m4a"@[0]);
        assert("ogg"@[0] != "mp4a"@[0]);
        assert("ogg"@[0] != "aac"@[0]);
        assert("ogg"@[0] != "flac"@[0]);
        assert("ogg"@[0] != "wav"@[0]);
    }
    assert(x == "oga"@ ==> classified(kind_for_extension(x), MediaCategory::Audio, "audio/ogg"@)) by {
        reveal_strlit("mp3");
        reveal_strlit("m4a");
        reveal_strlit("mp4a");
        reveal_strlit("aac");
        reveal_strlit("flac");
        reveal_strlit("wav");
        reveal_strlit("ogg");
        reveal_strlit("oga");
        assert("oga"@[0] != "mp3"@[0]);
        assert("oga"@[0] != "m4a"@[0]);
        assert("oga"@[0] != "mp4a"@[0]);
        assert("oga"@[0] != "aac"@[0]);
        assert("oga"@[0] != "flac"@[0]);
        assert("oga"@[0] != "wav"@[0]);
        assert("oga"@[2] != "ogg"@[2]);
    }
    assert(x == "mp4"@ ==> classified(kind_for_extension(x), MediaCategory::Video, "video/mp4"@)) by {
        reveal_strlit("mp3");
        reveal_strlit("m4a");
        reveal_strlit("mp4a");
        reveal_strlit("aac");
        reveal_strlit("flac");
        reveal_strlit("wav");
        reveal_strlit("ogg");
        reveal_strlit("oga");
        reveal_strlit("mp4");
        assert("mp4"@[2] != "mp3"@[2]);
        assert("mp4"@[1] != "m4a"@[1]);
        assert("mp4"@.len() != "mp4a"@.len());
        assert("mp4"@[0] != "aac"@[0]);
        assert("mp4"@[0] != "flac"@[0]);
        assert("mp4"@[0] != "wav"@[0]);
        assert("mp4"@[0] != "ogg"@[0]);
        assert("mp4"@[0] != "oga"@[0]);
    }
    assert(x == "m4v"@ ==> classified(kind_for_extension(x), MediaCategory::Video, "video/mp4"@)) by {
        reveal_strlit("mp3");
        reveal_strlit("m4a");
        reveal_strlit("mp4a");
        reveal_strlit("aac");
        reveal_strlit("flac");
        reveal_strlit("wav");
        reveal_strlit("ogg");
        reveal_strlit("oga");
        reveal_strlit("mp4");
        reveal_strlit("m4v");
        assert("m4v"@[1] != "mp3"@[1]);
        assert("m4v"@[2] != "m4a"@[2]);
        assert("m4v"@[1] != "mp4a"@[1]);
        assert("m4v"@[0] != "aac"@[0]);
        assert("m4v"@[0] != "flac"@[0]);
        assert("m4v"@[0] != "wav"@[0]);
        assert("m4v"@[0] != "ogg"@[0]);
        assert("m4v"@[0] != "oga"@[0]);
        assert("m4v"@[1] != "mp4"@[1]);
    }
    assert(x == "mkv"@ ==> classified(kind_for_extension(x), MediaCategory::Video, "video/x-matroska"@)) by {
        reveal_strlit("mp3");
        reveal_strlit("m4a");
        reveal_strlit("mp4a");
        reveal_strlit("aac");
        reveal_strlit("flac");
        reveal_strlit("wav");
        reveal_strlit("ogg");
        reveal_strlit("oga");
        reveal_strlit("mp4");
        reveal_strlit("m4v");
        reveal_strlit("mkv");
        assert("mkv"@[1] != "mp3"@[1]);
        assert("mkv"@[1] != "m4a"@[1]);
        assert("mkv"@[1] != "mp4a"@[1]);
        assert("mkv"@[0] != "aac"@[0]);
        assert("mkv"@[0] != "flac"@[0]);
        assert("mkv"@[0] != "wav"@[0]);
        assert("mkv"@[0] != "ogg"@[0]);
        assert("mkv"@[0] != "oga"@[0]);
        assert("mkv"@[1] != "mp4"@[1]);
        assert("mkv"@[1] != "m4v"@[1]);
    }
    assert(x == "avi"@ ==> classified(kind_for_extension(x), MediaCategory::Video, "video/x-msvideo"@)) by {
        reveal_strlit("mp3");
        reveal_strlit("m4a");
        reveal_strlit("mp4a");
        reveal_strlit("aac");
        reveal_strlit("flac");
        reveal_strlit("wav");
        reveal_strlit("ogg");
        reveal_strlit("oga");
        reveal_strlit("mp4");
        reveal_strlit("m4v");
        reveal_strlit("mkv");
        reveal_strlit("avi");
        assert("avi"@[0] != "mp3"@[0]);
        assert("avi"@[0] != "m4a"@[0]);
        assert("avi"@[0] != "mp4a"@[0]);
        assert("avi"@[1] != "aac"@[1]);
        assert("avi"@[0] != "flac"@[0]);
        assert("avi"@[0] != "wav"@[0]);
        assert("avi"@[0] != "ogg"@[0]);
        assert("avi"@[0] != "oga"@[0]);
        assert("avi"@[0] != "mp4"@[0]);
        assert("avi"@[0] != "m4v"@[0]);
        assert("avi"@[0] != "mkv"@[0]);
    }
    assert(x == "mpeg"@ ==> classified(kind_for_extension(x), MediaCategory::Video, "video/mpeg"@)) by {
        reveal_strlit("mp3");
        reveal_strlit("m4a");
        reveal_strlit("mp4a");
        reveal_strlit("aac");
        reveal_strlit("flac");
        reveal_strlit("wav");
        reveal_strlit("ogg");
        reveal_strlit("oga");
        reveal_strlit("mp4");
        reveal_strlit("m4v");
        reveal_strlit("mkv");
        reveal_strlit("avi");
        reveal_strlit("mpeg");
        assert("mpeg"@[2] != "mp3"@[2]);
        assert("mpeg"@[1] != "m4a"@[1]);
        assert("mpeg"@[2] != "mp4a"@[2]);
        assert("mpeg"@[0] != "aac"@[0]);
        assert("mpeg"@[0] != "flac"@[0]);
        assert("mpeg"@[0] != "wav"@[0]);
        assert("mpeg"@[0] != "ogg"@[0]);
        assert("mpeg"@[0] != "oga"@[0]);
        assert("mpeg"@[2] != "mp4"@[2]);
        assert("mpeg"@[1] != "m4v"@[1]);
        assert("mpeg"@[1] != "mkv"@[1]);
        assert("mpeg"@[0] != "avi"@[0]);
    }
    assert(x == "mpg"@ ==> classified(kind_for_extension(x), MediaCategory::Video, "video/mpeg"@)) by {
        reveal_strlit("mp3");
        reveal_strlit("m4a");
        reveal_strlit("mp4a");
        reveal_strlit("aac");
        reveal_strlit("flac");
        reveal_strlit("wav");
        reveal_strlit("ogg");
        reveal_strlit("oga");
        reveal_strlit("mp4");
        reveal_strlit("m4v");
        reveal_strlit("mkv");
        reveal_strlit("avi");
        reveal_strlit("mpeg");
        reveal_strlit("mpg");
        assert("mpg"@[2] != "mp3"@[2]);
        assert("mpg"@[1] != "m4a"@[1]);
        assert("mpg"@[2] != "mp4a"@[2]);
        assert("mpg"@[0] != "aac"@[0]);
        assert("mpg"@[0] != "flac"@[0]);
        assert("mpg"@[0] != "wav"@[0]);
        assert("mpg"@[0] != "ogg"@[0]);
        assert("mpg"@[0] != "oga"@[0]);
        assert("mpg"@[2] != "mp4"@[2]);
        assert("mpg"@[1] != "m4v"@[1]);
        assert("mpg"@[1] != "mkv"@[1]);
        assert("mpg"@[0] != "avi"@[0]);
        assert("mpg"@[2] != "mpeg"@[2]);
    }
    assert(x == "mpe"@ ==> classified(kind_for_extension(x), MediaCategory::Video, "video/mpeg"@)) by {
        reveal_strlit("mp3");
        reveal_strlit("m4a");
        reveal_strlit("mp4a");
        reveal_strlit("aac");
        reveal_strlit("flac");
        reveal_strlit("wav");
        reveal_strlit("ogg");
        reveal_strlit("oga");
        reveal_strlit("mp4");
        reveal_strlit("m4v");
        reveal_strlit("mkv");
        reveal_strlit("avi");
        reveal_strlit("mpeg");
        reveal_strlit("mpg");
        reveal_strlit("mpe");
        assert("mpe"@[2] != "mp3"@[2]);
        assert("mpe"@[1] != "m4a"@[1]);
        assert("mpe"@[2] != "mp4a"@[2]);
        assert("mpe"@[0] != "aac"@[0]);
        assert("mpe"@[0] != "flac"@[0]);
        assert("mpe"@[0] != "wav"@[0]);
        assert("mpe"@[0] != "ogg"@[0]);
        assert("mpe"@[0] != "oga"@[0]);
        assert("mpe"@[2] != "mp4"@[2]);
        assert("mpe"@[1] != "m4v"@[1]);
        assert("mpe"@[1] != "mkv"@[1]);
        assert("mpe"@[0] != "avi"@[0]);
        assert("mpe"@.len() != "mpeg"@.len());
        assert("mpe"@[2] != "mpg"@[2]);
    }
    assert(x == "ts"@ ==> classified(kind_for_extension(x), MediaCategory::Video, "video/mp2t"@)) by {
        reveal_strlit("mp3");
        reveal_strlit("m4a");
        reveal_strlit("mp4a");
        reveal_strlit("aac");
        reveal_strlit("flac");
        reveal_strlit("wav");
        reveal_strlit("ogg");
        reveal_strlit("oga");
        reveal_strlit("mp4");
        reveal_strlit("m4v");
        reveal_strlit("mkv");
        reveal_strlit("avi");
        reveal_strlit("mpeg");
        reveal_strlit("mpg");
        reveal_strlit("mpe");
        reveal_strlit("ts");
        assert("ts"@[0] != "mp3"@[0]);
        assert("ts"@[0] != "m4a"@[0]);
        assert("ts"@[0] != "mp4a"@[0]);
        assert("ts"@[0] != "aac"@[0]);
        assert("ts"@[0] != "flac"@[0]);
        assert("ts"@[0] != "wav"@[0]);
        assert("ts"@[0] != "ogg"@[0]);
        assert("ts"@[0] != "oga"@[0]);
        assert("ts"@[0] != "mp4"@[0]);
        assert("ts"@[0] != "m4v"@[0]);
        assert("ts"@[0] != "mkv"@[0]);
        assert("ts"@[0] != "avi"@[0]);
        assert("ts"@[0] != "mpeg"@[0]);
        assert("ts"@[0] != "mpg"@[0]);
        assert("ts"@[0] != "mpe"@[0]);
    }
    assert(x == "m2ts"@ ==> classified(kind_for_extension(x), MediaCategory::Video, "video/mp2t"@)) by {
        reveal_strlit("mp3");
        reveal_strlit("m4a");
        reveal_strlit("mp4a");
        reveal_strlit("aac");
        reveal_strlit("flac");
        reveal_strlit("wav");
        reveal_strlit("ogg");
        reveal_strlit("oga");
        reveal_strlit("mp4");
        reveal_strlit("m4v");
        reveal_strlit("mkv");
        reveal_strlit("avi");
        reveal_strlit("mpeg");
        reveal_strlit("mpg");
        reveal_strlit("mpe");
        reveal_strlit("ts");
        reveal_strlit("m2ts");
        assert("m2ts"@[1] != "mp3"@[1]);
        assert("m2ts"@[1] != "m4a"@[1]);
        assert("m2ts"@[1] != "mp4a"@[1]);
        assert("m2ts"@[0] != "aac"@[0]);
        assert("m2ts"@[0] != "flac"@[0]);
        assert("m2ts"@[0] != "wav"@[0]);
        assert("m2ts"@[0] != "ogg"@[0]);
        assert("m2ts"@[0] != "oga"@[0]);
        assert("m2ts"@[1] != "mp4"@[1]);
        assert("m2ts"@[1] != "m4v"@[1]);
        assert("m2ts"@[1] != "mkv"@[1]);
        assert("m2ts"@[0] != "avi"@[0]);
        assert("m2ts"@[1] != "mpeg"@[1]);
        assert("m2ts"@[1] != "mpg"@[1]);
        assert("m2ts"@[1] != "mpe"@[1]);
        assert("m2ts"@[0] != "ts"@[0]);
    }
    assert(x == "mts"@ ==> classified(kind_for_extension(x), MediaCategory::Video, "video/mp2t"@)) by {
        reveal_strlit("mp3");
        reveal_strlit("m4a");
        reveal_strlit("mp4a");
        reveal_strlit("aac");
        reveal_strlit("flac");
        reveal_strlit("wav");
        reveal_strlit("ogg");
        reveal_strlit("oga");
        reveal_strlit("mp4");
        reveal_strlit("m4v");
        reveal_strlit("mkv");
        reveal_strlit("avi");
        reveal_strlit("mpeg");
        reveal_strlit("mpg");
        reveal_strlit("mpe");
        reveal_strlit("ts");
        reveal_strlit("m2ts");
        reveal_strlit("mts");
        assert("mts"@[1] != "mp3"@[1]);
        assert("mts"@[1] != "m4a"@[1]);
        assert("mts"@[1] != "mp4a"@[1]);
        assert("mts"@[0] != "aac"@[0]);
        assert("mts"@[0] != "flac"@[0]);
        assert("mts"@[0] != "wav"@[0]);
        assert("mts"@[0] != "ogg"@[0]);
        assert("mts"@[0] != "oga"@[0]);
        assert("mts"@[1] != "mp4"@[1]);
        assert("mts"@[1] != "m4v"@[1]);
        assert("mts"@[1] != "mkv"@[1]);
        assert("mts"@[0] != "avi"@[0]);
        assert("mts"@[1] != "mpeg"@[1]);
        assert("mts"@[1] != "mpg"@[1]);
        assert("mts"@[1] != "mpe"@[1]);
        assert("mts"@[0] != "ts"@[0]);
        assert("mts"@[1] != "m2ts"@[1]);
    }
    assert(x == "mov"@ ==> classified(kind_for_extension(x), MediaCategory::Video, "video/quicktime"@)) by {
        reveal_strlit("mp3");
        reveal_strlit("m4a");
        reveal_strlit("mp4a");
        reveal_strlit("aac");
        reveal_strlit("flac");
        reveal_strlit("wav");
        reveal_strlit("ogg");
        reveal_strlit("oga");
        reveal_strlit("mp4");
        reveal_strlit("m4v");
        reveal_strlit("mkv");
        reveal_strlit("avi");
        reveal_strlit("mpeg");
        reveal_strlit("mpg");
        reveal_strlit("mpe");
        reveal_strlit("ts");
        reveal_strlit("m2ts");
        reveal_strlit("mts");
        reveal_strlit("mov");
        assert("mov"@[1] != "mp3"@[1]);
        assert("mov"@[1] != "m4a"@[1]);
        assert("mov"@[1] != "mp4a"@[1]);
        assert("mov"@[0] != "aac"@[0]);
        assert("mov"@[0] != "flac"@[0]);
        assert("mov"@[0] != "wav"@[0]);
        assert("mov"@[0] != "ogg"@[0]);
        assert("mov"@[0] != "oga"@[0]);
        assert("mov"@[1] != "mp4"@[1]);
        assert("mov"@[1] != "m4v"@[1]);
        assert("mov"@[1] != "mkv"@[1]);
        assert("mov"@[0] != "avi"@[0]);
        assert("mov"@[1] != "mpeg"@[1]);
        assert("mov"@[1] != "mpg"@[1]);
        assert("mov"@[1] != "mpe"@[1]);
        assert("mov"@[0] != "ts"@[0]);
        assert("mov"@[1] != "m2ts"@[1]);
        assert("mov"@[1] != "mts"@[1]);
    }
    assert(x == "webm"@ ==> classified(kind_for_extension(x), MediaCategory::Video, "video/webm"@)) by {
        reveal_strlit("mp3");
        reveal_strlit("m4a");
        reveal_strlit("mp4a");
        reveal_strlit("aac");
        reveal_strlit("flac");
        reveal_strlit("wav");
        reveal_strlit("ogg");
        reveal_strlit("oga");
        reveal_strlit("mp4");
        reveal_strlit("m4v");
        reveal_strlit("mkv");
        reveal_strlit("avi");
        reveal_strlit("mpeg");
        reveal_strlit("mpg");
        reveal_strlit("mpe");
        reveal_strlit("ts");
        reveal_strlit("m2ts");
        reveal_strlit("mts");
        reveal_strlit("mov");
        reveal_strlit("webm");
        assert("webm"@[0] != "mp3"@[0]);
        assert("webm"@[0] != "m4a"@[0]);
        assert("webm"@[0] != "mp4a"@[0]);
        assert("webm"@[0] != "aac"@[0]);
        assert("webm"@[0] != "flac"@[0]);
        assert("webm"@[1] != "wav"@[1]);
        assert("webm"@[0] != "ogg"@[0]);
        assert("webm"@[0] != "oga"@[0]);
        assert("webm"@[0] != "mp4"@[0]);
        assert("webm"@[0] != "m4v"@[0]);
        assert("webm"@[0] != "mkv"@[0]);
        assert("webm"@[0] != "avi"@[0]);
        assert("webm"@[0] != "mpeg"@[0]);
        assert("webm"@[0] != "mpg"@[0]);
        assert("webm"@[0] != "mpe"@[0]);
        assert("webm"@[0] != "ts"@[0]);
        assert("webm"@[0] != "m2ts"@[0]);
        assert("webm"@[0] != "mts"@[0]);
        assert("webm"@[0] != "mov"@[0]);
    }
    assert(x == "jpg"@ ==> classified(kind_for_extension(x), MediaCategory::Image, "image/jpeg"@)) by {
        reveal_strlit("mp3");
        reveal_strlit("m4a");
        reveal_strlit("mp4a");
        reveal_strlit("aac");
        reveal_strlit("flac");
        reveal_strlit("wav");
        reveal_strlit("ogg");
        reveal_strlit("oga");
        reveal_strlit("mp4");
        reveal_strlit("m4v");
        reveal_strlit("mkv");
        reveal_strlit("avi");
        reveal_strlit("mpeg");
        reveal_strlit("mpg");
        reveal_strlit("mpe");
        reveal_strlit("ts");
        reveal_strlit("m2ts");
        reveal_strlit("mts");
        reveal_strlit("mov");
        reveal_strlit("webm");
        reveal_strlit("jpg");
        assert("jpg"@[0] != "mp3"@[0]);
        assert("jpg"@[0] != "m4a"@[0]);
        assert("jpg"@[0] != "mp4a"@[0]);
        assert("jpg"@[0] != "aac"@[0]);
        assert("jpg"@[0] != "flac"@[0]);
        assert("jpg"@[0] != "wav"@[0]);
        assert("jpg"@[0] != "ogg"@[0]);
        assert("jpg"@[0] != "oga"@[0]);
        assert("jpg"@[0] != "mp4"@[0]);
        assert("jpg"@[0] != "m4v"@[0]);
        assert("jpg"@[0] != "mkv"@[0]);
        assert("jpg"@[0] != "avi"@[0]);
        assert("jpg"@[0] != "mpeg"@[0]);
        assert("jpg"@[0] != "mpg"@[0]);
        assert("jpg"@[0] != "mpe"@[0]);
        assert("jpg"@[0] != "ts"@[0]);
        assert("jpg"@[0] != "m2ts"@[0]);
        assert("jpg"@[0] != "mts"@[0]);
        assert("jpg"@[0] != "mov"@[0]);
        assert("jpg"@[0] != "webm"@[0]);
    }
    assert(x == "jpeg"@ ==> classified(kind_for_extension(x), MediaCategory::Image, "image/jpeg"@)) by {
        reveal_strlit("mp3");
        reveal_strlit("m4a");
        reveal_strlit("mp4a");
        reveal_strlit("aac");
        reveal_strlit("flac");
        reveal_strlit("wav");
        reveal_strlit("ogg");
        reveal_strlit("oga");
        reveal_strlit("mp4");
        reveal_strlit("m4v");
        reveal_strlit("mkv");
        reveal_strlit("avi");
        reveal_strlit("mpeg");
        reveal_strlit("mpg");
        reveal_strlit("mpe");
        reveal_strlit("ts");
        reveal_strlit("m2ts");
        reveal_strlit("mts");
        reveal_strlit("mov");
        reveal_strlit("webm");
        reveal_strlit("jpg");
        reveal_strlit("jpeg");
        assert("jpeg"@[0] != "mp3"@[0]);
        assert("jpeg"@[0] != "m4a"@[0]);
        assert("jpeg"@[0] != "mp4a"@[0]);
        assert("jpeg"@[0] != "aac"@[0]);
        assert("jpeg"@[0] != "flac"@[0]);
        assert("jpeg"@[0] != "wav"@[0]);
        assert("jpeg"@[0] != "ogg"@[0]);
        assert("jpeg"@[0] != "oga"@[0]);
        assert("jpeg"@[0] != "mp4"@[0]);
        assert("jpeg"@[0] != "m4v"@[0]);
        assert("jpeg"@[0] != "mkv"@[0]);
        assert("jpeg"@[0] != "avi"@[0]);
        assert("jpeg"@[0] != "mpeg"@[0]);
        assert("jpeg"@[0] != "mpg"@[0]);
        assert("jpeg"@[0] != "mpe"@[0]);
        assert("jpeg"@[0] != "ts"@[0]);
        assert("jpeg"@[0] != "m2ts"@[0]);
        assert("jpeg"@[0] != "mts"@[0]);
        assert("jpeg"@[0] != "mov"@[0]);
        assert("jpeg"@[0] != "webm"@[0]);
        assert("jpeg"@[2] != "jpg"@[2]);
    }
    assert(x == "png"@ ==> classified(kind_for_extension(x), MediaCategory::Image, "image/png"@)) by {
        reveal_strlit("mp3");
        reveal_strlit("m4a");
        reveal_strlit("mp4a");
        reveal_strlit("aac");
        reveal_strlit("flac");
        reveal_strlit("wav");
        reveal_strlit("ogg");
        reveal_strlit("oga");
        reveal_strlit("mp4");
        reveal_strlit("m4v");
        reveal_strlit("mkv");
        reveal_strlit("avi");
        reveal_strlit("mpeg");
        reveal_strlit("mpg");
        reveal_strlit("mpe");
        reveal_strlit("ts");
        reveal_strlit("m2ts");
        reveal_strlit("mts");
        reveal_strlit("mov");
        reveal_strlit("webm");
        reveal_strlit("jpg");
        reveal_strlit("jpeg");
        reveal_strlit("png");
        assert("png"@[0] != "mp3"@[0]);
        assert("png"@[0] != "m4a"@[0]);
        assert("png"@[0] != "mp4a"@[0]);
        assert("png"@[0] != "aac"@[0]);
        assert("png"@[0] != "flac"@[0]);
        assert("png"@[0] != "wav"@[0]);
        assert("png"@[0] != "ogg"@[0]);
        assert("png"@[0] != "oga"@[0]);
        assert("png"@[0] != "mp4"@[0]);
        assert("png"@[0] != "m4v"@[0]);
        assert("png"@[0] != "mkv"@[0]);
        assert("png"@[0] != "avi"@[0]);
        assert("png"@[0] != "mpeg"@[0]);
        assert("png"@[0] != "mpg"@[0]);
        assert("png"@[0] != "mpe"@[0]);
        assert("png"@[0] != "ts"@[0]);
        assert("png"@[0] != "m2ts"@[0]);
        assert("png"@[0] != "mts"@[0]);
        assert("png"@[0] != "mov"@[0]);
        assert("png"@[0] != "webm"@[0]);
        assert("png"@[0] != "jpg"@[0]);
        assert("png"@[0] != "jpeg"@[0]);
    }
    assert(x == "gif"@ ==> classified(kind_for_extension(x), MediaCategory::Image, "image/gif"@)) by {
        reveal_strlit("mp3");
        reveal_strlit("m4a");
        reveal_strlit("mp4a");
        reveal_strlit("aac");
        reveal_strlit("flac");
        reveal_strlit("wav");
        reveal_strlit("ogg");
        reveal_strlit("oga");
        reveal_strlit("mp4");
        reveal_strlit("m4v");
        reveal_strlit("mkv");
        reveal_strlit("avi");
        reveal_strlit("mpeg");
        reveal_strlit("mpg");
        reveal_strlit("mpe");
        reveal_strlit("ts");
        reveal_strlit("m2ts");
        reveal_strlit("mts");
        reveal_strlit("mov");
        reveal_strlit("webm");
        reveal_strlit("jpg");
        reveal_strlit("jpeg");
        reveal_strlit("png");
        reveal_strlit("gif");
        assert("gif"@[0] != "mp3"@[0]);
        assert("gif"@[0] != "m4a"@[0]);
        assert("gif"@[0] != "mp4a"@[0]);
        assert("gif"@[0] != "aac"@[0]);
        assert("gif"@[0] != "flac"@[0]);
        assert("gif"@[0] != "wav"@[0]);
        assert("gif"@[0] != "ogg"@[0]);
        assert("gif"@[0] != "oga"@[0]);
        assert("gif"@[0] != "mp4"@[0]);
        assert("gif"@[0] != "m4v"@[0]);
        assert("gif"@[0] != "mkv"@[0]);
        assert("gif"@[0] != "avi"@[0]);
        assert("gif"@[0] != "mpeg"@[0]);
        assert("gif"@[0] != "mpg"@[0]);
        assert("gif"@[0] != "mpe"@[0]);
        assert("gif"@[0] != "ts"@[0]);
        assert("gif"@[0] != "m2ts"@[0]);
        assert("gif"@[0] != "mts"@[0]);
        assert("gif"@[0] != "mov"@[0]);
        assert("gif"@[0] != "webm"@[0]);
        assert("gif"@[0] != "jpg"@[0]);
        assert("gif"@[0] != "jpeg"@[0]);
        assert("gif"@[0] != "png"@[0]);
    }
}

/// How a path is classified: by its extension, ignoring ASCII case.
pub open spec fn spec_media_kind(path: Seq<u8>) -> Option<MediaKind> {
    match media_extension(path) {
        Some(e) => kind_for_extension(ascii_lower_seq(e)),
        None => None,
    }
}

/// A file is published as media exactly when its extension, in any ASCII
/// case, is one the server lists, and then with that extension's category
/// and MIME type (a `.jpg` or `.JPG` photo is `image/jpeg`).
pub proof fn lemma_media_kind_by_extension(path: Seq<u8>)
    ensures
        spec_media_kind(path) is Some <==> (media_extension(path) matches Some(e)
            && listed_extension(ascii_lower_seq(e))),
        media_extension(path) matches Some(e) ==> {
            let x = ascii_lower_seq(e);
            &&& (x == "mp3"@ ==> classified(spec_media_kind(path), MediaCategory::Audio, "audio/mpeg"@))
            &&& (x == "m4a"@ ==> classified(spec_media_kind(path), MediaCategory::Audio, "audio/mp4"@))
            &&& (x == "mp4a"@ ==> classified(spec_media_kind(path), MediaCategory::Audio, "audio/mp4"@))
            &&& (x == "aac"@ ==> classified(spec_media_kind(path), MediaCategory::Audio, "audio/aac"@))
            &&& (x == "flac"@ ==> classified(spec_media_kind(path), MediaCategory::Audio, "audio/flac"@))
            &&& (x == "wav"@ ==> classified(spec_media_kind(path), MediaCategory::Audio, "audio/wav"@))
            &&& (x == "ogg"@ ==> classified(spec_media_kind(path), MediaCategory::Audio, "audio/ogg"@))
            &&& (x == "oga"@ ==> classified(spec_media_kind(path), MediaCategory::Audio, "audio/ogg"@))
            &&& (x == "mp4"@ ==> classified(spec_media_kind(path), MediaCategory::Video, "video/mp4"@))
            &&& (x == "m4v"@ ==> classified(spec_media_kind(path), MediaCategory::Video, "video/mp4"@))
            &&& (x == "mkv"@ ==> classified(spec_media_kind(path), MediaCategory::Video, "video/x-matroska"@))
            &&& (x == "avi"@ ==> classified(spec_media_kind(path), MediaCategory::Video, "video/x-msvideo"@))
            &&& (x == "mpeg"@ ==> classified(spec_media_kind(path), MediaCategory::Video, "video/mpeg"@))
            &&& (x == "mpg"@ ==> classified(spec_media_kind(path), MediaCategory::Video, "video/mpeg"@))
            &&& (x == "mpe"@ ==> classified(spec_media_kind(path), MediaCategory::Video, "video/mpeg"@))
            &&& (x == "ts"@ ==> classified(spec_media_kind(path), MediaCategory::Video, "video/mp2t"@))
            &&& (x == "m2ts"@ ==> classified(spec_media_kind(path), MediaCategory::Video, "video/mp2t"@))
            &&& (x == "mts"@ ==> classified(spec_media_kind(path), MediaCategory::Video, "video/mp2t"@))
            &&& (x == "mov"@ ==> classified(spec_media_kind(path), MediaCategory::Video, "video/quicktime"@))
            &&& (x == "webm"@ ==> classified(spec_media_kind(path), MediaCategory::Video, "video/webm"@))
            &&& (x == "jpg"@ ==> classified(spec_media_kind(path), MediaCategory::Image, "image/jpeg"@))
            &&& (x == "jpeg"@ ==> classified(spec_media_kind(path), MediaCategory::Image, "image/jpeg"@))
            &&& (x == "png"@ ==> classified(spec_media_kind(path), MediaCategory::Image, "image/png"@))
            &&& (x == "gif"@ ==> classified(spec_media_kind(path), MediaCategory::Image, "image/gif"@))
        },
{
    if let Some(e) = media_extension(path) {
        lemma_extension_table(ascii_lower_seq(e));
    }
}

fn byte_chars_of(b: &[u8]) -> (v: Vec<char>)
    ensures
        v@ == byte_chars(b@),
{
    let mut v: Vec<char> = Vec::new();
    let mut i: usize = 0;
    while i < b.len()
        invariant
            i <= b@.len(),
            v@ == byte_chars(b@).take(i as int),
        decreases b@.len() - i,
    {
        v.push(b[i] as char);
        i = i + 1;
        assert(v@ =~= byte_chars(b@).take(i as int));
    }
    assert(byte_chars(b@).take(b@.len() as int) == byte_chars(b@));
    v
}

/// Where the file name of the path `v` lies in `v`.
fn file_name_bounds(v: &[char]) -> (r: (usize, usize))
    ensures
        r.0 <= r.1 <= v@.len(),
        final_component(v@) == v@.subrange(r.0 as int, r.1 as int),
{
    let mut end: usize = v.len();
    assert(v@.take(end as int) == v@);
    while end > 0 && (v[end - 1] == '/' || (v[end - 1] == '.' && (end == 1 || v[end - 2] == '/')))
        invariant
            end <= v@.len(),
            final_component(v@.take(end as int)) == final_component(v@),
        decreases end,
    {
        let ghost t = v@.take(end as int);
        assert(t.last() == v@[end - 1]);
        assert(end >= 2 ==> t[t.len() - 2] == v@[end - 2]);
        assert(t.drop_last() =~= v@.take(end - 1));
        end = end - 1;
    }
    let ghost t = v@.take(end as int);
    proof {
        if end > 0 {
            assert(t.last() == v@[end - 1]);
            assert(end >= 2 ==> t[t.len() - 2] == v@[end - 2]);
        }
    }
    assert(v@.subrange(0, end as int) == t);
    let slash = rfind_char(v, 0, end, '/');
    let start: usize = match slash {
        Some(i) => i + 1,
        None => 0,
    };
    proof {
        match last_index(t, '/') {
            Some(i) => {
                assert(t.skip(i + 1) =~= v@.subrange(start as int, end as int));
            },
            None => {
                assert(t =~= v@.subrange(start as int, end as int));
            },
        }
    }
    if end - start == 2 && v[start] == '.' && v[start + 1] == '.' {
        proof {
            assert(v@.subrange(start as int, end as int) =~= ".."@) by {
                reveal_strlit("..");
            }
            assert(v@.subrange(end as int, end as int) =~= Seq::<char>::empty());
        }
        return (end, end);
    }
    proof {
        reveal_strlit("..");
        if v@.subrange(start as int, end as int) == ".."@ {
            assert(v@.subrange(start as int, end as int)[0] == v@[start as int]);
            assert(v@.subrange(start as int, end as int)[1] == v@[start + 1]);
        }
    }
    (start, end)
}

/// The extension of a path (`media_extension`), one character per byte.
pub fn extension_chars(path: &[u8]) -> (r: Option<Vec<char>>)
    ensures
        match media_extension(path@) {
            Some(e) => r matches Some(v) && v@ == e,
            None => r is None,
        },
{
    let v = byte_chars_of(path);
    let (start, end) = file_name_bounds(v.as_slice());
    let ghost f = final_component(v@);
    let d = match rfind_char(v.as_slice(), start, end, '.') {
        Some(d) => d,
        None => {
            return None;
        },
    };
    if d == start {
        return None;
    }
    let mut ext: Vec<char> = Vec::new();
    let mut i: usize = d + 1;
    while i < end
        invariant
            d < i <= end <= v@.len(),
            ext@ == v@.subrange(d + 1, i as int),
        decreases end - i,
    {
        ext.push(v[i]);
        i = i + 1;
        assert(ext@ =~= v@.subrange(d + 1, i as int));
    }
    assert(f.skip(d - start + 1) == v@.subrange(d + 1, end as int));
    Some(ext)
}

/// Classifies a path by its extension, ignoring ASCII case.
pub fn media_kind(path: &[u8]) -> (r: Option<MediaKind>)
    ensures
        r == spec_media_kind(path@),
{
    let v = byte_chars_of(path);
    let (start, end) = file_name_bounds(v.as_slice());
    let ghost f = final_component(v@);
    let dot = rfind_char(v.as_slice(), start, end, '.');
    let d = match dot {
        Some(d) => d,
        None => {
            return None;
        },
    };
    if d == start {
        return None;
    }
    let mut ext: Vec<char> = Vec::new();
    let mut i: usize = d + 1;
    while i < end
        invariant
            d < i <= end <= v@.len(),
            ext@ == ascii_lower_seq(v@.subrange(d + 1, i as int)),
        decreases end - i,
    {
        ext.push(to_ascii_lower(v[i]));
        i = i + 1;
        assert(ext@ =~= ascii_lower_seq(v@.subrange(d + 1, i as int)));
    }
    assert(f.skip(d - start + 1) == v@.subrange(d + 1, end as int));
    kind_for_lower_extension(ext.as_slice())
}

fn kind_for_lower_extension(e: &[char]) -> (r: Option<MediaKind>)
    ensures
        r == kind_for_extension(e@),
{
    if chars_eq_str(e, "mp3") {
        Some(MediaKind {
            category: MediaCategory::Audio,
            mime_type: "audio/mpeg",
            upnp_class: "object.item.audioItem.musicTrack",
            dlna_profile: None,
        })
    } else if chars_eq_str(e, "m4a") || chars_eq_str(e, "mp4a") {
        Some(MediaKind {
            category: MediaCategory::Audio,
            mime_type: "audio/mp4",
            upnp_class: "object.item.audioItem.musicTrack",
            dlna_profile: None,
        })
    } else if chars_eq_str(e, "aac") {
        Some(MediaKind {
            category: MediaCategory::Audio,
            mime_type: "audio/aac",
            upnp_class: "object.item.audioItem.musicTrack",
            dlna_profile: None,
        })
    } else if chars_eq_str(e, "flac") {
        Some(MediaKind {
            category: MediaCategory::Audio,
            mime_type: "audio/flac",
            upnp_class: "object.item.audioItem.musicTrack",
            dlna_profile: None,
        })
    } else if chars_eq_str(e, "wav") {
        Some(MediaKind {
            category: MediaCategory::Audio,
            mime_type: "audio/wav",
            upnp_class: "object.item.audioItem.musicTrack",
            dlna_profile: None,
        })
    } else if chars_eq_str(e, "ogg") || chars_eq_str(e, "oga") {
        Some(MediaKind {
            category: MediaCategory::Audio,
            mime_type: "audio/ogg",
            upnp_class: "object.item.audioItem.musicTrack",
            dlna_profile: None,
        })
    } else if chars_eq_str(e, "mp4") || chars_eq_str(e, "m4v") {
        Some(MediaKind {
            category: MediaCategory::Video,
            mime_type: "video/mp4",
            upnp_class: "object.item.videoItem",
            dlna_profile: None,
        })
    } else if chars_eq_str(e, "mkv") {
        Some(MediaKind {
            category: MediaCategory::Video,
            mime_type: "video/x-matroska",
            upnp_class: "object.item.videoItem",
            dlna_profile: None,
        })
    } else if chars_eq_str(e, "avi") {
        Some(MediaKind {
            category: MediaCategory::Video,
            mime_type: "video/x-msvideo",
            upnp_class: "object.item.videoItem",
            dlna_profile: None,
        })
    } else if chars_eq_str(e, "mpeg") || chars_eq_str(e, "mpg") || chars_eq_str(e, "mpe") {
        Some(MediaKind {
            category: MediaCategory::Video,
            mime_type: "video/mpeg",
            upnp_class: "object.item.videoItem",
            dlna_profile: None,
        })
    } else if chars_eq_str(e, "ts") || chars_eq_str(e, "m2ts") || chars_eq_str(e, "mts") {
        Some(MediaKind {
            category: MediaCategory::Video,
            mime_type: "video/mp2t",
            upnp_class: "object.item.videoItem",
            dlna_profile: None,
        })
    } else if chars_eq_str(e, "mov") {
        Some(MediaKind {
            category: MediaCategory::Video,
            mime_type: "video/quicktime",
            upnp_class: "object.item.videoItem",
            dlna_profile: None,
        })
    } else if chars_eq_str(e, "webm") {
        Some(MediaKind {
            category: MediaCategory::Video,
            mime_type: "video/webm",
            upnp_class: "object.item.videoItem",
            dlna_profile: None,
        })
    } else if chars_eq_str(e, "jpg") || chars_eq_str(e, "jpeg") {
        Some(MediaKind {
            category: MediaCategory::Image,
            mime_type: "image/jpeg",
            upnp_class: "object.item.imageItem.photo",
            dlna_profile: None,
        })
    } else if chars_eq_str(e, "png") {
        Some(MediaKind {
            category: MediaCategory::Image,
            mime_type: "image/png",
            upnp_class: "object.item.imageItem.photo",
            dlna_profile: None,
        })
    } else if chars_eq_str(e, "gif") {
        Some(MediaKind {
            category: MediaCategory::Image,
            mime_type: "image/gif",
            upnp_class: "object.item.imageItem.photo",
            dlna_profile: None,
        })
    } else {
        None
    }
}

// ---------------------------------------------------------------------------
// Hashing and object identity
// ---------------------------------------------------------------------------

/// FNV-1a offset basis.
pub const FNV_OFFSET: u64 = 0xcbf2_9ce4_8422_2325;

/// FNV-1a prime.
pub const FNV_PRIME: u64 = 0x0000_0100_0000_01b3;

/// One FNV-1a step.
pub open spec fn fnv_step(h: u64, b: u8) -> u64 {
    wrapping_mul(h ^ (b as u64), FNV_PRIME)
}

/// FNV-1a over a byte sequence, starting from `h`.
pub open spec fn fnv_extend(h: u64, bytes: Seq<u8>) -> u64
    decreases bytes.len(),
{
    if bytes.len() == 0 {
        h
    } else {
        fnv_step(fnv_extend(h, bytes.drop_last()), bytes.last())
    }
}

/// One hashed field: its bytes followed by a `0xff` terminator, so that
/// adjacent fields cannot run into each other.
pub open spec fn hash_field(h: u64, bytes: Seq<u8>) -> u64 {
    fnv_step(fnv_extend(h, bytes), 0xff)
}

/// The little-endian bytes of `v`.
pub open spec fn le_bytes(v: u64) -> Seq<u8> {
    Seq::new(8, |k: int| ((v >> ((8 * k) as u64)) & 0xff) as u8)
}

/// A 64-bit hash folded to the 32 bits of a UPnP update ID.
pub open spec fn fold_hash(h: u64) -> u32 {
    (h ^ (h >> 32u64)) as u32
}

/// The hash of a path's bytes.
pub open spec fn path_hash(b: Seq<u8>) -> u64 {
    fnv_extend(FNV_OFFSET, b)
}

/// An object ID: the kind letter (`d` for directories, `f` for files), then the
/// share root's hash and the relative path's hash as 16 hexadecimal digits each.
pub open spec fn object_id_text(kind: char, root_hash: u64, relative: Seq<u8>) -> Seq<char> {
    seq![kind] + hex_fixed(root_hash as nat, 16) + hex_fixed(path_hash(relative) as nat, 16)
}

fn extend_hash(hash: &mut u64, value: &[u8])
    ensures
        *final(hash) == fnv_extend(*old(hash), value@),
{
    let ghost start = *hash;
    let mut i: usize = 0;
    while i < value.len()
        invariant
            i <= value@.len(),
            *hash == fnv_extend(start, value@.take(i as int)),
        decreases value@.len() - i,
    {
        *hash = (*hash ^ (value[i] as u64)).wrapping_mul(FNV_PRIME);
        proof {
            let t = value@.take(i + 1);
            assert(t.drop_last() == value@.take(i as int));
        }
        i = i + 1;
    }
    assert(value@.take(value@.len() as int) == value@);
}

fn hash_value(hash: &mut u64, value: &[u8])
    ensures
        *final(hash) == hash_field(*old(hash), value@),
{
    extend_hash(hash, value);
    *hash = (*hash ^ 0xff).wrapping_mul(FNV_PRIME);
}

fn hash_u64(hash: &mut u64, v: u64)
    ensures
        *final(hash) == hash_field(*old(hash), le_bytes(v)),
{
    let ghost start = *hash;
    let mut k: u64 = 0;
    while k < 8
        invariant
            k <= 8,
            *hash == fnv_extend(start, le_bytes(v).take(k as int)),
        decreases 8 - k,
    {
        let b: u8 = ((v >> (8 * k)) & 0xff) as u8;
        *hash = (*hash ^ (b as u64)).wrapping_mul(FNV_PRIME);
        proof {
            let t = le_bytes(v).take(k + 1);
            assert(t.drop_last() == le_bytes(v).take(k as int));
            assert(t.last() == b);
        }
        k = k + 1;
    }
    assert(le_bytes(v).take(8) == le_bytes(v));
    *hash = (*hash ^ 0xff).wrapping_mul(FNV_PRIME);
}

fn fold_update_id(hash: u64) -> (r: u32)
    ensures
        r == fold_hash(hash),
{
    (hash ^ (hash >> 32)) as u32
}

/// The hash of a path's raw bytes (FNV-1a).
pub fn stable_os_hash(value: &[u8]) -> (r: u64)
    ensures
        r == path_hash(value@),
{
    let mut hash: u64 = FNV_OFFSET;
    extend_hash(&mut hash, value);
    hash
}

/// The object ID of the path `relative` below a share whose root hashes to
/// `root_hash`.
pub fn object_id(kind: char, root_hash: u64, relative: &[u8]) -> (r: String)
    ensures
        r@ == object_id_text(kind, root_hash, relative@),
{
    let path_hash = stable_os_hash(relative);
    let mut out = String::new();
    push_char(&mut out, kind);
    push_hex_fixed(&mut out, root_hash, 16);
    push_hex_fixed(&mut out, path_hash, 16);
    assert(out@ =~= object_id_text(kind, root_hash, relative@));
    out
}

/// Generated object IDs are 33 characters long and therefore never equal the
/// root's ID `0`.
pub proof fn lemma_object_id_is_not_root(kind: char, root_hash: u64, relative: Seq<u8>)
    ensures
        object_id_text(kind, root_hash, relative).len() == 33,
        object_id_text(kind, root_hash, relative) != ROOT_ID@,
{
    lemma_hex_fixed_len(root_hash as nat, 16);
    lemma_hex_fixed_len(path_hash(relative) as nat, 16);
    reveal_strlit("0");
    assert(ROOT_ID@.len() == 1);
}

pub proof fn lemma_hex_fixed_len(n: nat, width: nat)
    ensures
        hex_fixed(n, width).len() == width,
    decreases width,
{
    if width > 0 {
        lemma_hex_fixed_len(n / 16, (width - 1) as nat);
    }
}

// ---------------------------------------------------------------------------
// The catalog
// ---------------------------------------------------------------------------

/// The children of one container, in browse order.
#[derive(Debug)]
struct ChildList {
    parent: String,
    ids: Vec<String>,
}

/// An immutable snapshot of the published hierarchy.
#[derive(Debug)]
pub struct Catalog {
    /// All objects but the root, ordered by ID.
    entries: Vec<Entry>,
    /// For each container (and the root), the IDs of its children.
    children: Vec<ChildList>,
    update_id: u32,
    file_count: usize,
    total_bytes: u64,
}

/// The outcome of a scan: the catalog and how many files were withheld because
/// they were modified too recently.
#[derive(Debug)]
pub struct CatalogScan {
    pub catalog: Catalog,
    pub unsettled_files: usize,
}

/// The entry with ID `id` in `s`, if any.
pub open spec fn find_view(s: Seq<EntryView>, id: Seq<char>) -> Option<EntryView>
    decreases s.len(),
{
    if s.len() == 0 {
        None
    } else if s.last().id == id {
        Some(s.last())
    } else {
        find_view(s.drop_last(), id)
    }
}

/// The child list of `parent` in `s`, if any.
pub open spec fn find_list(s: Seq<(Seq<char>, Seq<Seq<char>>)>, parent: Seq<char>) -> Option<
    Seq<Seq<char>>,
>
    decreases s.len(),
{
    if s.len() == 0 {
        None
    } else if s.last().0 == parent {
        Some(s.last().1)
    } else {
        find_list(s.drop_last(), parent)
    }
}

pub open spec fn ids_view(ids: Seq<String>) -> Seq<Seq<char>> {
    ids.map_values(|s: String| s@)
}

spec fn list_view(c: ChildList) -> (Seq<char>, Seq<Seq<char>>) {
    (c.parent@, ids_view(c.ids@))
}

/// Whether the IDs in `s` are pairwise distinct.
pub open spec fn distinct_ids(s: Seq<EntryView>) -> bool {
    forall|i: int, j: int| 0 <= i < j < s.len() ==> (#[trigger] s[i]).id != (#[trigger] s[j]).id
}

/// Whether the parents in `s` are pairwise distinct.
pub open spec fn distinct_parents(s: Seq<(Seq<char>, Seq<Seq<char>>)>) -> bool {
    forall|a: int, b: int| 0 <= a < b < s.len() ==> (#[trigger] s[a]).0 != (#[trigger] s[b]).0
}

proof fn lemma_find_view_at(s: Seq<EntryView>, i: int)
    requires
        distinct_ids(s),
        0 <= i < s.len(),
    ensures
        find_view(s, s[i].id) == Some(s[i]),
    decreases s.len(),
{
    if i < s.len() - 1 {
        assert(s[i].id != s.last().id);
        let t = s.drop_last();
        assert(t[i] == s[i]);
        assert forall|a: int, b: int| 0 <= a < b < t.len() implies (#[trigger] t[a]).id != (
        #[trigger] t[b]).id by {
            assert(t[a] == s[a] && t[b] == s[b]);
        }
        lemma_find_view_at(t, i);
    }
}

proof fn lemma_find_view_none(s: Seq<EntryView>, id: Seq<char>)
    requires
        forall|i: int| 0 <= i < s.len() ==> (#[trigger] s[i]).id != id,
    ensures
        find_view(s, id) is None,
    decreases s.len(),
{
    if s.len() > 0 {
        let t = s.drop_last();
        assert forall|i: int| 0 <= i < t.len() implies (#[trigger] t[i]).id != id by {
            assert(t[i] == s[i]);
        }
        lemma_find_view_none(t, id);
    }
}

proof fn lemma_find_view_some(s: Seq<EntryView>, id: Seq<char>)
    requires
        find_view(s, id) is Some,
    ensures
        exists|i: int| 0 <= i < s.len() && s[i] == find_view(s, id)->0 && s[i].id == id,
    decreases s.len(),
{
    if s.last().id != id {
        let t = s.drop_last();
        lemma_find_view_some(t, id);
        let i = choose|i: int| 0 <= i < t.len() && t[i] == find_view(t, id)->0 && t[i].id == id;
        assert(s[i] == t[i]);
    } else {
        assert(s[s.len() - 1] == s.last());
    }
}

proof fn lemma_find_list_at(s: Seq<(Seq<char>, Seq<Seq<char>>)>, a: int)
    requires
        distinct_parents(s),
        0 <= a < s.len(),
    ensures
        find_list(s, s[a].0) == Some(s[a].1),
    decreases s.len(),
{
    if a < s.len() - 1 {
        let t = s.drop_last();
        assert(t[a] == s[a]);
        assert forall|x: int, y: int| 0 <= x < y < t.len() implies (#[trigger] t[x]).0 != (
        #[trigger] t[y]).0 by {
            assert(t[x] == s[x] && t[y] == s[y]);
        }
        lemma_find_list_at(t, a);
    }
}

proof fn lemma_find_list_none(s: Seq<(Seq<char>, Seq<Seq<char>>)>, p: Seq<char>)
    requires
        forall|a: int| 0 <= a < s.len() ==> (#[trigger] s[a]).0 != p,
    ensures
        find_list(s, p) is None,
    decreases s.len(),
{
    if s.len() > 0 {
        let t = s.drop_last();
        assert forall|a: int| 0 <= a < t.len() implies (#[trigger] t[a]).0 != p by {
            assert(t[a] == s[a]);
        }
        lemma_find_list_none(t, p);
    }
}

proof fn lemma_find_list_some(s: Seq<(Seq<char>, Seq<Seq<char>>)>, p: Seq<char>)
    requires
        find_list(s, p) is Some,
    ensures
        exists|a: int| 0 <= a < s.len() && s[a].0 == p && s[a].1 == find_list(s, p)->0,
    decreases s.len(),
{
    if s.last().0 != p {
        let t = s.drop_last();
        lemma_find_list_some(t, p);
        let a = choose|a: int| 0 <= a < t.len() && t[a].0 == p && t[a].1 == find_list(t, p)->0;
        assert(s[a] == t[a]);
    } else {
        assert(s[s.len() - 1] == s.last());
    }
}

/// A copy of a byte vector.
pub fn copy_bytes(v: &Vec<u8>) -> (r: Vec<u8>)
    ensures
        r@ == v@,
{
    let r = v.clone();
    assert(r@ =~= v@);
    r
}

proof fn lemma_find_list_update(
    s: Seq<(Seq<char>, Seq<Seq<char>>)>,
    a: int,
    l: Seq<Seq<char>>,
    p: Seq<char>,
)
    requires
        distinct_parents(s),
        0 <= a < s.len(),
    ensures
        distinct_parents(s.update(a, (s[a].0, l))),
        find_list(s.update(a, (s[a].0, l)), p) == (if p == s[a].0 {
            Some(l)
        } else {
            find_list(s, p)
        }),
{
    let t = s.update(a, (s[a].0, l));
    assert forall|x: int, y: int| 0 <= x < y < t.len() implies (#[trigger] t[x]).0 != (
    #[trigger] t[y]).0 by {
        assert(t[x].0 == s[x].0 && t[y].0 == s[y].0);
    }
    if p == s[a].0 {
        lemma_find_list_at(t, a);
    } else {
        match find_list(s, p) {
            Some(_) => {
                lemma_find_list_some(s, p);
                let b = choose|b: int| 0 <= b < s.len() && s[b].0 == p && s[b].1 == find_list(s, p)->0;
                assert(t[b] == s[b]);
                lemma_find_list_at(t, b);
            },
            None => {
                assert forall|b: int| 0 <= b < t.len() implies (#[trigger] t[b]).0 != p by {
                    if s[b].0 == p {
                        lemma_find_list_at(s, b);
                    }
                }
                lemma_find_list_none(t, p);
            },
        }
    }
}

proof fn lemma_find_list_push(
    s: Seq<(Seq<char>, Seq<Seq<char>>)>,
    q: Seq<char>,
    l: Seq<Seq<char>>,
    p: Seq<char>,
)
    requires
        distinct_parents(s),
        find_list(s, q) is None,
    ensures
        distinct_parents(s.push((q, l))),
        find_list(s.push((q, l)), p) == (if p == q {
            Some(l)
        } else {
            find_list(s, p)
        }),
{
    let t = s.push((q, l));
    assert(t.drop_last() == s);
    assert forall|x: int, y: int| 0 <= x < y < t.len() implies (#[trigger] t[x]).0 != (
    #[trigger] t[y]).0 by {
        if y == s.len() {
            assert(t[x] == s[x]);
            if s[x].0 == q {
                lemma_find_list_at(s, x);
            }
        } else {
            assert(t[x] == s[x] && t[y] == s[y]);
        }
    }
}

/// Inserting an entry whose ID sorts between its neighbours keeps the
/// sequence ordered and adds exactly that entry.
proof fn lemma_insert_sorted(s: Seq<EntryView>, pos: int, e: EntryView, x: Seq<char>)
    requires
        0 <= pos <= s.len(),
        forall|i: int, j: int| 0 <= i < j < s.len() ==> str_lt((#[trigger] s[i]).id, (#[trigger] s[j]).id),
        forall|k: int| 0 <= k < pos ==> str_lt((#[trigger] s[k]).id, e.id),
        forall|k: int| pos <= k < s.len() ==> str_lt(e.id, (#[trigger] s[k]).id),
    ensures
        forall|i: int, j: int|
            0 <= i < j < s.insert(pos, e).len() ==> str_lt(
                (#[trigger] s.insert(pos, e)[i]).id,
                (#[trigger] s.insert(pos, e)[j]).id,
            ),
        find_view(s.insert(pos, e), x) == (if x == e.id {
            Some(e)
        } else {
            find_view(s, x)
        }),
{
    let t = s.insert(pos, e);
    assert forall|i: int, j: int| 0 <= i < j < t.len() implies str_lt(
        (#[trigger] t[i]).id,
        (#[trigger] t[j]).id,
    ) by {
        if j < pos {
            assert(t[i] == s[i] && t[j] == s[j]);
        } else if j == pos {
            assert(t[i] == s[i] && t[j] == e);
        } else if i == pos {
            assert(t[i] == e && t[j] == s[j - 1]);
        } else if i > pos {
            assert(t[i] == s[i - 1] && t[j] == s[j - 1]);
        } else {
            assert(t[i] == s[i] && t[j] == s[j - 1]);
        }
    }
    assert forall|i: int, j: int| 0 <= i < j < t.len() implies (#[trigger] t[i]).id != (
    #[trigger] t[j]).id by {
        assert(str_lt(t[i].id, t[j].id));
        crate::order::lemma_bytes_lt_irreflexive(encode_utf8(t[i].id));
    }
    assert forall|i: int, j: int| 0 <= i < j < s.len() implies (#[trigger] s[i]).id != (
    #[trigger] s[j]).id by {
        assert(str_lt(s[i].id, s[j].id));
        crate::order::lemma_bytes_lt_irreflexive(encode_utf8(s[i].id));
    }
    if x == e.id {
        assert(t[pos] == e);
        lemma_find_view_at(t, pos);
    } else {
        match find_view(s, x) {
            Some(_) => {
                lemma_find_view_some(s, x);
                let j = choose|j: int| 0 <= j < s.len() && s[j] == find_view(s, x)->0 && s[j].id == x;
                lemma_find_view_at(s, j);
                if j < pos {
                    assert(t[j] == s[j]);
                    lemma_find_view_at(t, j);
                } else {
                    assert(t[j + 1] == s[j]);
                    lemma_find_view_at(t, j + 1);
                }
            },
            None => {
                assert forall|i: int| 0 <= i < t.len() implies (#[trigger] t[i]).id != x by {
                    if i < pos {
                        assert(t[i] == s[i]);
                        if s[i].id == x {
                            lemma_find_view_at(s, i);
                        }
                    } else if i > pos {
                        assert(t[i] == s[i - 1]);
                        if s[i - 1].id == x {
                            lemma_find_view_at(s, i - 1);
                        }
                    }
                }
                lemma_find_view_none(t, x);
            },
        }
    }
}

/// Whether the entries are ordered by strictly increasing ID.
pub open spec fn ids_sorted(ev: Seq<EntryView>) -> bool {
    forall|i: int, j: int| 0 <= i < j < ev.len() ==> str_lt((#[trigger] ev[i]).id, (#[trigger] ev[j]).id)
}

/// Browse order rank: containers before items.
pub open spec fn kind_rank(k: EntryKindView) -> int {
    if k is Container {
        0
    } else {
        1
    }
}

/// Browse order of two existing catalog objects: containers first, then by
/// title, then by ID. Objects that do not exist are not ordered.
pub open spec fn child_lt(ev: Seq<EntryView>, a: Seq<char>, b: Seq<char>) -> bool {
    match (find_view(ev, a), find_view(ev, b)) {
        (Some(ea), Some(eb)) => {
            ||| kind_rank(ea.kind) < kind_rank(eb.kind)
            ||| (kind_rank(ea.kind) == kind_rank(eb.kind) && str_lt(ea.title, eb.title))
            ||| (kind_rank(ea.kind) == kind_rank(eb.kind) && ea.title == eb.title && str_lt(
                ea.id,
                eb.id,
            ))
        },
        _ => false,
    }
}

proof fn lemma_str_lt_facts()
    ensures
        forall|a: Seq<char>, b: Seq<char>, c: Seq<char>|
            #[trigger] str_lt(a, b) && #[trigger] str_lt(b, c) ==> str_lt(a, c),
        forall|a: Seq<char>| !#[trigger] str_lt(a, a),
        forall|a: Seq<char>, b: Seq<char>| #[trigger] str_lt(a, b) ==> !str_lt(b, a),
{
    assert forall|a: Seq<char>, b: Seq<char>, c: Seq<char>|
        #[trigger] str_lt(a, b) && #[trigger] str_lt(b, c) implies str_lt(a, c) by {
        crate::order::lemma_bytes_lt_transitive(encode_utf8(a), encode_utf8(b), encode_utf8(c));
    }
    assert forall|a: Seq<char>| !#[trigger] str_lt(a, a) by {
        crate::order::lemma_bytes_lt_irreflexive(encode_utf8(a));
    }
    assert forall|a: Seq<char>, b: Seq<char>| #[trigger] str_lt(a, b) implies !str_lt(b, a) by {
        crate::order::lemma_bytes_lt_asymmetric(encode_utf8(a), encode_utf8(b));
    }
}

proof fn lemma_child_lt_order(ev: Seq<EntryView>)
    ensures
        forall|a: Seq<char>, b: Seq<char>, c: Seq<char>|
            #[trigger] child_lt(ev, a, b) && #[trigger] child_lt(ev, b, c) ==> child_lt(ev, a, c),
        forall|a: Seq<char>, b: Seq<char>| #[trigger] child_lt(ev, a, b) ==> !child_lt(ev, b, a),
{
    lemma_str_lt_facts();
}

/// A rearrangement of a sequence without duplicates has none either.
proof fn lemma_no_duplicates_multiset<A>(a: Seq<A>, b: Seq<A>)
    requires
        a.no_duplicates(),
        b.to_multiset() == a.to_multiset(),
    ensures
        b.no_duplicates(),
{
    broadcast use vstd::seq_lib::group_to_multiset_ensures;

    a.lemma_multiset_has_no_duplicates();
    b.lemma_multiset_has_no_duplicates_conv();
}

/// Equal multisets stay equal when every element is mapped.
pub proof fn lemma_map_multiset<A, B>(a: Seq<A>, b: Seq<A>, f: spec_fn(A) -> B)
    requires
        a.to_multiset() == b.to_multiset(),
    ensures
        a.map_values(f).to_multiset() == b.map_values(f).to_multiset(),
    decreases a.len(),
{
    broadcast use vstd::seq_lib::group_to_multiset_ensures, vstd::multiset::group_multiset_axioms;

    if a.len() == 0 {
        assert(b.to_multiset().len() == 0);
        assert(b.len() == 0);
        assert(a.map_values(f) =~= b.map_values(f));
    } else {
        let x = a.last();
        assert(a.contains(x)) by {
            assert(a[a.len() - 1] == x);
        }
        vstd::seq_lib::to_multiset_contains(a, x);
        vstd::seq_lib::to_multiset_contains(b, x);
        let j = choose|j: int| 0 <= j < b.len() && b[j] == x;
        let a0 = a.drop_last();
        let b0 = b.remove(j);
        vstd::seq_lib::to_multiset_remove(b, j);
        assert(a0.push(x) == a);
        vstd::seq_lib::to_multiset_build(a0, x);
        assert(a0.to_multiset() =~= b0.to_multiset());
        lemma_map_multiset(a0, b0, f);
        assert(a.map_values(f) =~= a0.map_values(f).push(f(x)));
        assert(b.map_values(f) =~= b0.map_values(f).insert(j, f(x)));
        vstd::seq_lib::to_multiset_build(a0.map_values(f), f(x));
        vstd::seq_lib::to_multiset_insert(b0.map_values(f), j, f(x));
    }
}

/// Two list sequences with the same parents at every position find a parent
/// at the same position.
proof fn lemma_find_list_same_keys(
    s: Seq<(Seq<char>, Seq<Seq<char>>)>,
    t: Seq<(Seq<char>, Seq<Seq<char>>)>,
    p: Seq<char>,
)
    requires
        s.len() == t.len(),
        forall|b: int| 0 <= b < s.len() ==> (#[trigger] s[b]).0 == t[b].0,
    ensures
        find_list(s, p) is None <==> find_list(t, p) is None,
        find_list(s, p) is Some ==> exists|b: int|
            0 <= b < s.len() && s[b].0 == p && find_list(s, p)->0 == s[b].1 && find_list(t, p)->0
                == t[b].1,
    decreases s.len(),
{
    if s.len() > 0 {
        assert(s[s.len() - 1].0 == t[t.len() - 1].0);
        if s.last().0 != p {
            let s0 = s.drop_last();
            let t0 = t.drop_last();
            assert forall|b: int| 0 <= b < s0.len() implies (#[trigger] s0[b]).0 == t0[b].0 by {
                assert(s0[b] == s[b] && t0[b] == t[b]);
            }
            lemma_find_list_same_keys(s0, t0, p);
            if find_list(s, p) is Some {
                let b = choose|b: int|
                    0 <= b < s0.len() && s0[b].0 == p && find_list(s0, p)->0 == s0[b].1 && find_list(
                        t0,
                        p,
                    )->0 == t0[b].1;
                assert(s0[b] == s[b] && t0[b] == t[b]);
            }
        } else {
            assert(s[s.len() - 1] == s.last());
            assert(t[t.len() - 1] == t.last());
        }
    }
}

/// Looks an ID up in ID-ordered entries.
fn search_entries(entries: &Vec<Entry>, id: &str) -> (r: Result<usize, usize>)
    requires
        ids_sorted(entries@.map_values(|e: Entry| e@)),
    ensures
        match r {
            Ok(i) => i < entries@.len() && entries@[i as int].id@ == id@,
            Err(p) => p <= entries@.len() && (forall|k: int|
                0 <= k < p ==> str_lt((#[trigger] entries@[k]).id@, id@)) && (forall|k: int|
                p <= k < entries@.len() ==> str_lt(id@, (#[trigger] entries@[k]).id@)),
        },
{
    let ghost ev = entries@.map_values(|e: Entry| e@);
    let mut lo: usize = 0;
    let mut hi: usize = entries.len();
    while lo < hi
        invariant
            ids_sorted(ev),
            ev == entries@.map_values(|e: Entry| e@),
            ev.len() == entries@.len(),
            lo <= hi <= ev.len(),
            forall|k: int| 0 <= k < lo ==> str_lt((#[trigger] entries@[k]).id@, id@),
            forall|k: int| hi <= k < ev.len() ==> str_lt(id@, (#[trigger] entries@[k]).id@),
        decreases hi - lo,
    {
        let mid = lo + (hi - lo) / 2;
        let c = compare_str(entries[mid].id.as_str(), id);
        match c {
            Order::Same => {
                return Ok(mid);
            },
            Order::Before => {
                proof {
                    assert forall|k: int| 0 <= k < mid + 1 implies str_lt(
                        (#[trigger] entries@[k]).id@,
                        id@,
                    ) by {
                        if k < mid {
                            assert(ev[k].id == entries@[k].id@);
                            assert(ev[mid as int].id == entries@[mid as int].id@);
                            assert(str_lt(ev[k].id, ev[mid as int].id));
                            crate::order::lemma_bytes_lt_transitive(
                                encode_utf8(entries@[k].id@),
                                encode_utf8(entries@[mid as int].id@),
                                encode_utf8(id@),
                            );
                        }
                    }
                }
                lo = mid + 1;
            },
            Order::After => {
                proof {
                    assert forall|k: int| mid <= k < ev.len() implies str_lt(
                        id@,
                        (#[trigger] entries@[k]).id@,
                    ) by {
                        if k > mid {
                            assert(ev[k].id == entries@[k].id@);
                            assert(ev[mid as int].id == entries@[mid as int].id@);
                            assert(str_lt(ev[mid as int].id, ev[k].id));
                            crate::order::lemma_bytes_lt_transitive(
                                encode_utf8(id@),
                                encode_utf8(entries@[mid as int].id@),
                                encode_utf8(entries@[k].id@),
                            );
                        }
                    }
                }
                hi = mid;
            },
        }
    }
    Err(lo)
}

/// Whether `a` comes before `b` in browse order (`child_lt`).
fn child_less(entries: &Vec<Entry>, a: &String, b: &String) -> (r: bool)
    requires
        ids_sorted(entries@.map_values(|e: Entry| e@)),
    ensures
        r == child_lt(entries@.map_values(|e: Entry| e@), a@, b@),
{
    let ghost ev = entries@.map_values(|e: Entry| e@);
    proof {
        assert forall|i: int, j: int| 0 <= i < j < ev.len() implies (#[trigger] ev[i]).id != (
        #[trigger] ev[j]).id by {
            crate::order::lemma_bytes_lt_irreflexive(encode_utf8(ev[i].id));
        }
    }
    let ia = match search_entries(entries, a.as_str()) {
        Ok(i) => i,
        Err(p) => {
            proof {
                assert forall|k: int| 0 <= k < ev.len() implies (#[trigger] ev[k]).id != a@ by {
                    assert(ev[k].id == entries@[k].id@);
                    crate::order::lemma_bytes_lt_irreflexive(encode_utf8(a@));
                }
                lemma_find_view_none(ev, a@);
            }
            return false;
        },
    };
    let ib = match search_entries(entries, b.as_str()) {
        Ok(i) => i,
        Err(p) => {
            proof {
                assert forall|k: int| 0 <= k < ev.len() implies (#[trigger] ev[k]).id != b@ by {
                    assert(ev[k].id == entries@[k].id@);
                    crate::order::lemma_bytes_lt_irreflexive(encode_utf8(b@));
                }
                lemma_find_view_none(ev, b@);
            }
            return false;
        },
    };
    proof {
        assert(ev[ia as int] == entries@[ia as int]@);
        assert(ev[ib as int] == entries@[ib as int]@);
        lemma_find_view_at(ev, ia as int);
        lemma_find_view_at(ev, ib as int);
    }
    let ea = &entries[ia];
    let eb = &entries[ib];
    let ra: u8 = match ea.kind {
        EntryKind::Container => 0,
        EntryKind::Media(_) => 1,
    };
    let rb: u8 = match eb.kind {
        EntryKind::Container => 0,
        EntryKind::Media(_) => 1,
    };
    if ra != rb {
        return ra < rb;
    }
    match compare_str(ea.title.as_str(), eb.title.as_str()) {
        Order::Before => true,
        Order::After => {
            proof {
                crate::order::lemma_bytes_lt_asymmetric(encode_utf8(eb.title@), encode_utf8(ea.title@));
            }
            false
        },
        Order::Same => {
            match compare_str(ea.id.as_str(), eb.id.as_str()) {
                Order::Before => true,
                _ => {
                    proof {
                        crate::order::lemma_bytes_lt_irreflexive(encode_utf8(ea.title@));
                    }
                    false
                },
            }
        },
    }
}

/// The UTF-8 bytes of a text.
pub open spec fn utf8(s: Seq<char>) -> Seq<u8> {
    encode_utf8(s)
}

/// The running hash over entries, each contributing its ID, parent ID,
/// title, modification time and size.
pub open spec fn fingerprint_fold(h: u64, s: Seq<EntryView>) -> u64
    decreases s.len(),
{
    if s.len() == 0 {
        h
    } else {
        let e = s.last();
        let h1 = fingerprint_fold(h, s.drop_last());
        hash_field(
            hash_field(
                hash_field(hash_field(hash_field(h1, utf8(e.id)), utf8(e.parent_id)), utf8(e.title)),
                le_bytes(e.modified_seconds),
            ),
            le_bytes(e.size),
        )
    }
}

/// The content fingerprint of ID-ordered entries, as a 32-bit update ID.
pub open spec fn fingerprint_of(ev: Seq<EntryView>) -> u32 {
    fold_hash(fingerprint_fold(FNV_OFFSET, ev))
}

/// The running hash over a container's children: each child's ID, and for
/// children that exist their title, modification time and size.
pub open spec fn update_fold(ev: Seq<EntryView>, h: u64, ids: Seq<Seq<char>>) -> u64
    decreases ids.len(),
{
    if ids.len() == 0 {
        h
    } else {
        let c = ids.last();
        let h2 = hash_field(update_fold(ev, h, ids.drop_last()), utf8(c));
        match find_view(ev, c) {
            Some(e) => hash_field(
                hash_field(hash_field(h2, utf8(e.title)), le_bytes(e.modified_seconds)),
                le_bytes(e.size),
            ),
            None => h2,
        }
    }
}

fn hash_str(hash: &mut u64, s: &str)
    ensures
        *final(hash) == hash_field(*old(hash), utf8(s@)),
{
    hash_value(hash, s.as_bytes());
}

fn hash_entry(hash: &mut u64, e: &Entry)
    ensures
        *final(hash) == hash_field(
            hash_field(
                hash_field(
                    hash_field(hash_field(*old(hash), utf8(e.id@)), utf8(e.parent_id@)),
                    utf8(e.title@),
                ),
                le_bytes(e.modified_seconds),
            ),
            le_bytes(e.size),
        ),
{
    hash_str(hash, e.id.as_str());
    hash_str(hash, e.parent_id.as_str());
    hash_str(hash, e.title.as_str());
    hash_u64(hash, e.modified_seconds);
    hash_u64(hash, e.size);
}

/// Two ID-ordered entry sequences that agree on every lookup are equal.
proof fn lemma_sorted_unique(s: Seq<EntryView>, t: Seq<EntryView>)
    requires
        ids_sorted(s),
        ids_sorted(t),
        forall|x: Seq<char>| #[trigger] find_view(s, x) == find_view(t, x),
    ensures
        s == t,
    decreases s.len() + t.len(),
{
    lemma_str_lt_facts();
    let ds = distinct_sorted(s);
    let dt = distinct_sorted(t);
    if s.len() == 0 {
        if t.len() > 0 {
            lemma_find_view_at(t, 0);
            assert(find_view(s, t[0].id) is None);
        }
        assert(s =~= t);
    } else if t.len() == 0 {
        lemma_find_view_at(s, 0);
    } else {
        let a = s.last();
        let b = t.last();
        lemma_find_view_at(s, s.len() - 1);
        lemma_find_view_at(t, t.len() - 1);
        assert(s[s.len() - 1] == a);
        assert(t[t.len() - 1] == b);
        // the largest IDs agree
        lemma_find_view_some(t, a.id);
        let j = choose|j: int| 0 <= j < t.len() && t[j] == find_view(t, a.id)->0 && t[j].id == a.id;
        lemma_find_view_some(s, b.id);
        let i = choose|i: int| 0 <= i < s.len() && s[i] == find_view(s, b.id)->0 && s[i].id == b.id;
        if j < t.len() - 1 {
            assert(str_lt(t[j].id, t[t.len() - 1].id));
            if i < s.len() - 1 {
                assert(str_lt(s[i].id, s[s.len() - 1].id));
            }
        }
        assert(j == t.len() - 1);
        assert(a == b);
        let s0 = s.drop_last();
        let t0 = t.drop_last();
        assert forall|x: Seq<char>| #[trigger] find_view(s0, x) == find_view(t0, x) by {
            if x != a.id {
                assert(find_view(s, x) == find_view(s0, x));
                assert(find_view(t, x) == find_view(t0, x));
            } else {
                assert forall|k: int| 0 <= k < s0.len() implies (#[trigger] s0[k]).id != x by {
                    assert(s0[k] == s[k]);
                    assert(str_lt(s[k].id, s[s.len() - 1].id));
                }
                assert forall|k: int| 0 <= k < t0.len() implies (#[trigger] t0[k]).id != x by {
                    assert(t0[k] == t[k]);
                    assert(str_lt(t[k].id, t[t.len() - 1].id));
                }
                lemma_find_view_none(s0, x);
                lemma_find_view_none(t0, x);
            }
        }
        assert(ids_sorted(s0)) by {
            assert forall|x: int, y: int| 0 <= x < y < s0.len() implies str_lt(
                (#[trigger] s0[x]).id,
                (#[trigger] s0[y]).id,
            ) by {
                assert(s0[x] == s[x] && s0[y] == s[y]);
            }
        }
        assert(ids_sorted(t0)) by {
            assert forall|x: int, y: int| 0 <= x < y < t0.len() implies str_lt(
                (#[trigger] t0[x]).id,
                (#[trigger] t0[y]).id,
            ) by {
                assert(t0[x] == t[x] && t0[y] == t[y]);
            }
        }
        lemma_sorted_unique(s0, t0);
        assert(s =~= s0.push(a));
        assert(t =~= t0.push(b));
    }
}

/// Ordered IDs are distinct.
proof fn distinct_sorted(s: Seq<EntryView>) -> (r: bool)
    requires
        ids_sorted(s),
    ensures
        distinct_ids(s),
{
    assert forall|i: int, j: int| 0 <= i < j < s.len() implies (#[trigger] s[i]).id != (
    #[trigger] s[j]).id by {
        crate::order::lemma_bytes_lt_irreflexive(encode_utf8(s[i].id));
    }
    true
}

fn entry_kind_eq(a: &EntryKind, b: &EntryKind) -> (r: bool)
    ensures
        r == (a@ == b@),
{
    match (a, b) {
        (EntryKind::Container, EntryKind::Container) => true,
        (EntryKind::Media(x), EntryKind::Media(y)) => {
            let profiles = match (x.dlna_profile, y.dlna_profile) {
                (None, None) => true,
                (Some(p), Some(q)) => crate::text::str_eq(p, q),
                _ => false,
            };
            x.category == y.category && crate::text::str_eq(x.mime_type, y.mime_type)
                && crate::text::str_eq(x.upnp_class, y.upnp_class) && profiles
        },
        _ => false,
    }
}

pub fn bytes_eq(a: &Vec<u8>, b: &Vec<u8>) -> (r: bool)
    ensures
        r == (a@ == b@),
{
    match crate::order::compare_bytes(a.as_slice(), b.as_slice()) {
        Order::Same => true,
        _ => false,
    }
}

/// Whether two entries have the same content.
#[verifier::rlimit(30)]
pub fn entry_eq(a: &Entry, b: &Entry) -> (r: bool)
    ensures
        r == (a@ == b@),
{
    crate::text::str_eq(a.id.as_str(), b.id.as_str()) && crate::text::str_eq(
        a.parent_id.as_str(),
        b.parent_id.as_str(),
    ) && crate::text::str_eq(a.title.as_str(), b.title.as_str()) && bytes_eq(&a.path, &b.path)
        && entry_kind_eq(&a.kind, &b.kind) && a.size == b.size && a.modified_seconds
        == b.modified_seconds
}

fn id_lists_eq(a: &Vec<String>, b: &Vec<String>) -> (r: bool)
    ensures
        r == (ids_view(a@) == ids_view(b@)),
{
    if a.len() != b.len() {
        return false;
    }
    let mut i: usize = 0;
    while i < a.len()
        invariant
            a@.len() == b@.len(),
            i <= a@.len(),
            forall|k: int| 0 <= k < i ==> (#[trigger] a@[k])@ == b@[k]@,
        decreases a@.len() - i,
    {
        if !crate::text::str_eq(a[i].as_str(), b[i].as_str()) {
            assert(ids_view(a@)[i as int] != ids_view(b@)[i as int]);
            return false;
        }
        i = i + 1;
    }
    assert(ids_view(a@) =~= ids_view(b@));
    true
}

impl Catalog {
    /// The entries, in ID order.
    pub closed spec fn entry_views(&self) -> Seq<EntryView> {
        self.entries@.map_values(|e: Entry| e@)
    }

    /// The child lists, as (parent, children) pairs.
    pub closed spec fn list_views(&self) -> Seq<(Seq<char>, Seq<Seq<char>>)> {
        self.children@.map_values(|c: ChildList| list_view(c))
    }

    /// The entry with ID `id`, if any.
    pub open spec fn spec_entry(&self, id: Seq<char>) -> Option<EntryView> {
        find_view(self.entry_views(), id)
    }

    /// The IDs of the children of `id`, in order, if `id` is the root or a
    /// container.
    pub open spec fn spec_child_ids(&self, id: Seq<char>) -> Option<Seq<Seq<char>>> {
        find_list(self.list_views(), id)
    }

    /// The children of `id`, in order.
    pub open spec fn spec_children(&self, id: Seq<char>) -> Option<Seq<EntryView>> {
        match self.spec_child_ids(id) {
            Some(l) => Some(Seq::new(l.len(), |k: int| self.spec_entry(l[k])->0)),
            None => None,
        }
    }

    pub closed spec fn spec_update_id(&self) -> u32 {
        self.update_id
    }

    pub closed spec fn spec_file_count(&self) -> usize {
        self.file_count
    }

    pub closed spec fn spec_total_bytes(&self) -> u64 {
        self.total_bytes
    }

    /// The catalog's invariant: entries are ordered by ID (so IDs are unique),
    /// child lists have distinct parents, every listed child exists, every
    /// entry is listed under its parent, every container has a child list, and
    /// so has the root.
    pub closed spec fn wf(&self) -> bool {
        let ev = self.entry_views();
        &&& forall|i: int, j: int|
            0 <= i < j < ev.len() ==> str_lt((#[trigger] ev[i]).id, (#[trigger] ev[j]).id)
        &&& distinct_parents(self.list_views())
        &&& self.children_exist()
        &&& self.entries_listed()
        &&& self.containers_listed()
        &&& self.spec_child_ids(ROOT_ID@) is Some
    }

    /// Every listed child exists.
    pub open spec fn children_exist(&self) -> bool {
        forall|p: Seq<char>, x: Seq<char>|
            #![trigger self.spec_child_ids(p)->0.contains(x)]
            self.spec_child_ids(p) is Some && self.spec_child_ids(p)->0.contains(x)
                ==> self.spec_entry(x) is Some
    }

    /// Every entry is listed under its parent.
    pub open spec fn entries_listed(&self) -> bool {
        forall|x: Seq<char>|
            #![trigger self.spec_entry(x)]
            self.spec_entry(x) is Some ==> {
                let e = self.spec_entry(x)->0;
                &&& self.spec_child_ids(e.parent_id) is Some
                &&& self.spec_child_ids(e.parent_id)->0.contains(x)
            }
    }

    /// Every container has a child list.
    pub open spec fn containers_listed(&self) -> bool {
        forall|x: Seq<char>|
            #![trigger self.spec_entry(x)]
            self.spec_entry(x) is Some && self.spec_entry(x)->0.kind is Container
                ==> self.spec_child_ids(x) is Some
    }

    /// The number of children listed under `id` (0 when it has no list).
    pub open spec fn spec_child_count(&self, id: Seq<char>) -> nat {
        match self.spec_child_ids(id) {
            Some(l) => l.len(),
            None => 0,
        }
    }

    /// The update ID is the content fingerprint, as a finished scan leaves it.
    pub open spec fn sealed(&self) -> bool {
        self.spec_update_id() == fingerprint_of(self.entry_views())
    }

    /// The root, or a container: an object that may have children.
    pub open spec fn may_have_children(&self, id: Seq<char>) -> bool {
        id == ROOT_ID@ || (self.spec_entry(id) matches Some(e) && e.kind is Container)
    }

    /// The shape of the child lists that browsing relies on: only the root
    /// and containers have a child list, every listed child is an entry that
    /// names the list's owner as its parent, and no list names a child twice.
    pub open spec fn browse_shaped(&self) -> bool {
        &&& forall|p: Seq<char>| #[trigger]
            self.spec_child_ids(p) is Some ==> self.may_have_children(p)
        &&& forall|p: Seq<char>, x: Seq<char>|
            #![trigger self.spec_child_ids(p)->0.contains(x)]
            self.spec_child_ids(p) is Some && self.spec_child_ids(p)->0.contains(x) ==> (
            self.spec_entry(x) matches Some(e) && e.parent_id == p)
        &&& forall|p: Seq<char>| #[trigger]
            self.spec_child_ids(p) is Some ==> self.spec_child_ids(p)->0.no_duplicates()
    }

    /// Adding an entry under the root or a container keeps the shape.
    pub proof fn lemma_shape_after_insert(&self, next: &Catalog, e: EntryView)
        requires
            self.browse_shaped(),
            self.may_have_children(e.parent_id),
            self.spec_entry(e.id) is None,
            forall|x: Seq<char>| #[trigger]
                next.spec_entry(x) == (if x == e.id {
                    Some(e)
                } else {
                    self.spec_entry(x)
                }),
            forall|p: Seq<char>| #[trigger] next.spec_child_ids(p) == self.lists_after_insert(e, p),
        ensures
            next.browse_shaped(),
    {
        assert forall|p: Seq<char>| #[trigger]
            next.spec_child_ids(p) is Some implies next.may_have_children(p) by {
            assert(next.spec_child_ids(p) == self.lists_after_insert(e, p));
            if p != ROOT_ID@ && !(p == e.id && e.kind is Container) {
                if p == e.parent_id {
                    assert(self.may_have_children(p));
                } else {
                    assert(self.spec_child_ids(p) is Some);
                    assert(self.may_have_children(p));
                }
                assert(p != e.id);
                assert(next.spec_entry(p) == self.spec_entry(p));
            } else if p != ROOT_ID@ {
                assert(next.spec_entry(e.id) == Some(e));
            }
        }
        assert forall|p: Seq<char>, x: Seq<char>|
            #![trigger next.spec_child_ids(p)->0.contains(x)]
            next.spec_child_ids(p) is Some && next.spec_child_ids(p)->0.contains(x) implies (
            next.spec_entry(x) matches Some(f) && f.parent_id == p) by {
            assert(next.spec_child_ids(p) == self.lists_after_insert(e, p));
            let l = next.spec_child_ids(p)->0;
            if x == e.id && p == e.parent_id {
                assert(next.spec_entry(x) == Some(e));
            } else {
                let k = choose|k: int| 0 <= k < l.len() && l[k] == x;
                if p == e.parent_id {
                    match self.spec_child_ids(p) {
                        Some(l0) => {
                            assert(l == l0.push(e.id));
                            assert(l0[k] == x);
                            assert(self.spec_child_ids(p)->0.contains(x));
                        },
                        None => {
                            assert(l == seq![e.id]);
                        },
                    }
                } else if p == e.id && e.kind is Container {
                    match self.spec_child_ids(p) {
                        Some(l0) => {
                            assert(self.spec_child_ids(p)->0.contains(x));
                        },
                        None => {
                            assert(l.len() == 0);
                        },
                    }
                } else {
                    assert(self.spec_child_ids(p)->0.contains(x));
                }
                assert(self.spec_entry(x) is Some);
                assert(x != e.id);
            }
        }
        assert forall|p: Seq<char>| #[trigger]
            next.spec_child_ids(p) is Some implies next.spec_child_ids(p)->0.no_duplicates() by {
            assert(next.spec_child_ids(p) == self.lists_after_insert(e, p));
            let l = next.spec_child_ids(p)->0;
            if p == e.parent_id {
                match self.spec_child_ids(p) {
                    Some(l0) => {
                        assert(l == l0.push(e.id));
                        assert(l0.no_duplicates());
                        assert forall|i: int, j: int| 0 <= i < l.len() && 0 <= j < l.len() && i != j
                            implies l[i] != l[j] by {
                            if i < l0.len() && j < l0.len() {
                                assert(l[i] == l0[i] && l[j] == l0[j]);
                            } else if i < l0.len() {
                                assert(self.spec_child_ids(p)->0.contains(l0[i]));
                                assert(self.spec_entry(l0[i]) is Some);
                            } else {
                                assert(self.spec_child_ids(p)->0.contains(l0[j]));
                                assert(self.spec_entry(l0[j]) is Some);
                            }
                        }
                    },
                    None => {
                        assert(l == seq![e.id]);
                    },
                }
            } else if p == e.id && e.kind is Container {
                match self.spec_child_ids(p) {
                    Some(l0) => {},
                    None => {
                        assert(l.len() == 0);
                    },
                }
            }
        }
    }

    /// Two catalogs with the same entries and the same child lists, each
    /// list possibly reordered, have the same shape.
    pub proof fn lemma_shape_after_reorder(&self, next: &Catalog)
        requires
            self.browse_shaped(),
            next.entry_views() == self.entry_views(),
            forall|p: Seq<char>|
                (#[trigger] next.spec_child_ids(p) is Some) == self.spec_child_ids(p) is Some,
            forall|p: Seq<char>|
                #![trigger next.spec_child_ids(p)]
                next.spec_child_ids(p) is Some ==> next.spec_child_ids(p)->0.to_multiset()
                    == self.spec_child_ids(p)->0.to_multiset(),
        ensures
            next.browse_shaped(),
    {
        broadcast use vstd::seq_lib::group_to_multiset_ensures;

        assert forall|p: Seq<char>| #[trigger]
            next.spec_child_ids(p) is Some implies next.may_have_children(p) by {
            assert(self.spec_child_ids(p) is Some);
        }
        assert forall|p: Seq<char>, x: Seq<char>|
            #![trigger next.spec_child_ids(p)->0.contains(x)]
            next.spec_child_ids(p) is Some && next.spec_child_ids(p)->0.contains(x) implies (
            next.spec_entry(x) matches Some(f) && f.parent_id == p) by {
            assert(self.spec_child_ids(p) is Some);
            let l = next.spec_child_ids(p)->0;
            let l0 = self.spec_child_ids(p)->0;
            vstd::seq_lib::to_multiset_contains(l, x);
            assert(l0.to_multiset().count(x) > 0);
            assert(l0.contains(x));
            assert(self.spec_child_ids(p)->0.contains(x));
        }
        assert forall|p: Seq<char>| #[trigger]
            next.spec_child_ids(p) is Some implies next.spec_child_ids(p)->0.no_duplicates() by {
            assert(self.spec_child_ids(p) is Some);
            let l = next.spec_child_ids(p)->0;
            let l0 = self.spec_child_ids(p)->0;
            assert(l0.no_duplicates());
            lemma_no_duplicates_multiset(l0, l);
        }
    }

    /// Browse order leaves no choice: two arrangements of the same existing
    /// entries, both in browse order (containers first, then by title, then
    /// by ID), are the same list.
    pub proof fn lemma_browse_order_unique(&self, s: Seq<Seq<char>>, t: Seq<Seq<char>>)
        requires
            s.to_multiset() == t.to_multiset(),
            forall|x: Seq<char>| s.contains(x) ==> #[trigger] self.spec_entry(x) is Some,
            crate::order::sorted_by(s, |x: Seq<char>, y: Seq<char>| child_lt(self.entry_views(), x, y)),
            crate::order::sorted_by(t, |x: Seq<char>, y: Seq<char>| child_lt(self.entry_views(), x, y)),
        ensures
            s == t,
    {
        let ev = self.entry_views();
        let lt = |x: Seq<char>, y: Seq<char>| child_lt(ev, x, y);
        assert forall|a: Seq<char>, b: Seq<char>|
            s.contains(a) && s.contains(b) && a != b implies #[trigger] lt(a, b) || #[trigger] lt(b, a) by {
            assert(self.spec_entry(a) is Some);
            assert(self.spec_entry(b) is Some);
            self.lemma_entry_id(a);
            self.lemma_entry_id(b);
            crate::order::lemma_str_lt_total(self.spec_entry(a)->0.title, self.spec_entry(b)->0.title);
            crate::order::lemma_str_lt_total(a, b);
        }
        crate::order::lemma_sorted_permutation_unique(s, t, lt);
    }

    /// In a well-formed catalog of that shape, an object has a child list
    /// exactly when it is the root or a container, and its children are
    /// distinct entries that each name it as their parent.
    pub proof fn lemma_child_lists(&self, id: Seq<char>)
        requires
            self.wf(),
            self.browse_shaped(),
        ensures
            self.spec_children(id) is Some <==> self.may_have_children(id),
            self.spec_children(id) is None ==> self.spec_child_count(id) == 0,
            self.spec_children(id) matches Some(s) ==> {
                &&& s.len() == self.spec_child_count(id)
                &&& forall|k: int| 0 <= k < s.len() ==> (#[trigger] s[k]).parent_id == id
                &&& forall|i: int, j: int| 0 <= i < j < s.len() ==> (#[trigger] s[i]).id != (#[trigger] s[j]).id
            },
    {
        if self.spec_child_ids(id) is Some {
            let l = self.spec_child_ids(id)->0;
            let s = self.spec_children(id)->0;
            assert forall|k: int| 0 <= k < s.len() implies (#[trigger] s[k]).parent_id == id
                && s[k].id == l[k] by {
                assert(self.spec_child_ids(id)->0.contains(l[k]));
                self.lemma_entry_id(l[k]);
            }
            assert forall|i: int, j: int| 0 <= i < j < s.len() implies (#[trigger] s[i]).id != (
            #[trigger] s[j]).id by {
                assert(s[i].id == l[i] && s[j].id == l[j]);
            }
        }
    }

    proof fn lemma_distinct(&self)
        requires
            self.wf(),
        ensures
            distinct_ids(self.entry_views()),
    {
        let ev = self.entry_views();
        assert forall|i: int, j: int| 0 <= i < j < ev.len() implies (#[trigger] ev[i]).id != (
        #[trigger] ev[j]).id by {
            assert(str_lt(ev[i].id, ev[j].id));
            crate::order::lemma_bytes_lt_irreflexive(encode_utf8(ev[i].id));
        }
    }

    /// The entry found under an ID carries that ID.
    pub proof fn lemma_entry_id(&self, id: Seq<char>)
        requires
            self.spec_entry(id) is Some,
        ensures
            self.spec_entry(id)->0.id == id,
    {
        lemma_find_view_some(self.entry_views(), id);
    }

    /// Each child of `id` is the entry stored under its own ID.
    pub proof fn lemma_children_are_entries(&self, id: Seq<char>)
        requires
            self.wf(),
            self.spec_child_ids(id) is Some,
        ensures
            forall|k: int|
                0 <= k < self.spec_children(id)->0.len() ==> self.spec_entry(
                    (#[trigger] self.spec_children(id)->0[k]).id,
                ) == Some(self.spec_children(id)->0[k]),
    {
        let l = self.spec_child_ids(id)->0;
        let s = self.spec_children(id)->0;
        assert forall|k: int| 0 <= k < s.len() implies self.spec_entry((#[trigger] s[k]).id) == Some(
            s[k],
        ) by {
            assert(l.contains(l[k]));
            assert(self.spec_child_ids(id)->0.contains(l[k]));
            self.lemma_entry_id(l[k]);
        }
    }

    /// The root and every container have a child list.
    pub proof fn lemma_browsable_listed(&self, id: Seq<char>)
        requires
            self.wf(),
            id == ROOT_ID@ || (self.spec_entry(id) matches Some(e) && e.kind is Container),
        ensures
            self.spec_child_ids(id) is Some,
    {
    }

    /// A catalog with only the root, which has no children.
    pub fn empty() -> (r: Catalog)
        ensures
            r.wf(),
            r.entry_views().len() == 0,
            forall|id: Seq<char>| r.spec_entry(id) is None,
            forall|id: Seq<char>|
                r.spec_child_ids(id) == (if id == ROOT_ID@ {
                    Some(Seq::<Seq<char>>::empty())
                } else {
                    None::<Seq<Seq<char>>>
                }),
            r.spec_update_id() == 0,
            r.spec_file_count() == 0,
            r.spec_total_bytes() == 0,
            r.browse_shaped(),
    {
        let mut children: Vec<ChildList> = Vec::new();
        children.push(ChildList { parent: String::from_str(ROOT_ID), ids: Vec::new() });
        let r = Catalog {
            entries: Vec::new(),
            children,
            update_id: 0,
            file_count: 0,
            total_bytes: 0,
        };
        proof {
            let lv = r.list_views();
            assert(lv.len() == 1);
            assert(lv[0] == (ROOT_ID@, Seq::<Seq<char>>::empty()));
            assert(ids_view(r.children@[0].ids@) =~= Seq::<Seq<char>>::empty());
            assert forall|id: Seq<char>| r.spec_entry(id) is None by {
                assert(r.entry_views().len() == 0);
            }
            assert forall|id: Seq<char>|
                r.spec_child_ids(id) == (if id == ROOT_ID@ {
                    Some(Seq::<Seq<char>>::empty())
                } else {
                    None::<Seq<Seq<char>>>
                }) by {
                assert(lv.drop_last().len() == 0);
                assert(lv.last() == lv[0]);
                assert(find_list(lv.drop_last(), id) is None);
            }
        }
        r
    }

    /// Binary search for `id`: its position, or where it would be inserted.
    fn search(&self, id: &str) -> (r: Result<usize, usize>)
        requires
            self.wf(),
        ensures
            match r {
                Ok(i) => i < self.entry_views().len() && self.entry_views()[i as int].id == id@,
                Err(p) => p <= self.entry_views().len() && (forall|k: int|
                    0 <= k < p ==> str_lt((#[trigger] self.entry_views()[k]).id, id@)) && (
                forall|k: int|
                    p <= k < self.entry_views().len() ==> str_lt(
                        id@,
                        (#[trigger] self.entry_views()[k]).id,
                    )),
            },
    {
        let ghost ev = self.entry_views();
        let mut lo: usize = 0;
        let mut hi: usize = self.entries.len();
        while lo < hi
            invariant
                self.wf(),
                ev == self.entry_views(),
                ev.len() == self.entries@.len(),
                lo <= hi <= ev.len(),
                forall|k: int| 0 <= k < lo ==> str_lt((#[trigger] ev[k]).id, id@),
                forall|k: int| hi <= k < ev.len() ==> str_lt(id@, (#[trigger] ev[k]).id),
            decreases hi - lo,
        {
            let mid = lo + (hi - lo) / 2;
            let c = compare_str(self.entries[mid].id.as_str(), id);
            assert(ev[mid as int] == self.entries@[mid as int]@);
            match c {
                Order::Same => {
                    return Ok(mid);
                },
                Order::Before => {
                    proof {
                        assert forall|k: int| 0 <= k < mid + 1 implies str_lt(
                            (#[trigger] ev[k]).id,
                            id@,
                        ) by {
                            if k < mid {
                                assert(str_lt(ev[k].id, ev[mid as int].id));
                                crate::order::lemma_bytes_lt_transitive(
                                    encode_utf8(ev[k].id),
                                    encode_utf8(ev[mid as int].id),
                                    encode_utf8(id@),
                                );
                            }
                        }
                    }
                    lo = mid + 1;
                },
                Order::After => {
                    proof {
                        assert forall|k: int| mid <= k < ev.len() implies str_lt(
                            id@,
                            (#[trigger] ev[k]).id,
                        ) by {
                            if k > mid {
                                assert(str_lt(ev[mid as int].id, ev[k].id));
                                crate::order::lemma_bytes_lt_transitive(
                                    encode_utf8(id@),
                                    encode_utf8(ev[mid as int].id),
                                    encode_utf8(ev[k].id),
                                );
                            }
                        }
                    }
                    hi = mid;
                },
            }
        }
        Err(lo)
    }

    /// The entry with the given ID.
    pub fn entry(&self, id: &str) -> (r: Option<&Entry>)
        requires
            self.wf(),
        ensures
            match r {
                Some(e) => self.spec_entry(id@) == Some(e@),
                None => self.spec_entry(id@) is None,
            },
    {
        match self.search(id) {
            Ok(i) => {
                proof {
                    self.lemma_distinct();
                    lemma_find_view_at(self.entry_views(), i as int);
                }
                Some(&self.entries[i])
            },
            Err(p) => {
                proof {
                    let ev = self.entry_views();
                    assert forall|k: int| 0 <= k < ev.len() implies (#[trigger] ev[k]).id
                        != id@ by {
                        if k < p {
                            assert(str_lt(ev[k].id, id@));
                            crate::order::lemma_bytes_lt_irreflexive(encode_utf8(id@));
                        } else {
                            assert(str_lt(id@, ev[k].id));
                            crate::order::lemma_bytes_lt_irreflexive(encode_utf8(id@));
                        }
                    }
                    lemma_find_view_none(ev, id@);
                }
                None
            },
        }
    }

    /// The position of the child list of `parent`.
    fn find_children(&self, parent: &str) -> (r: Option<usize>)
        requires
            self.wf(),
        ensures
            match r {
                Some(a) => a < self.list_views().len() && self.list_views()[a as int].0
                    == parent@ && self.spec_child_ids(parent@) == Some(
                    self.list_views()[a as int].1,
                ),
                None => self.spec_child_ids(parent@) is None,
            },
    {
        let ghost lv = self.list_views();
        let mut a: usize = 0;
        while a < self.children.len()
            invariant
                self.wf(),
                lv == self.list_views(),
                lv.len() == self.children@.len(),
                a <= lv.len(),
                forall|b: int| 0 <= b < a ==> (#[trigger] lv[b]).0 != parent@,
            decreases lv.len() - a,
        {
            assert(lv[a as int].0 == self.children@[a as int].parent@);
            if crate::text::str_eq(self.children[a].parent.as_str(), parent) {
                proof {
                    lemma_find_list_at(lv, a as int);
                }
                return Some(a);
            }
            a = a + 1;
        }
        proof {
            lemma_find_list_none(lv, parent@);
        }
        None
    }

    /// The children of a container (or of the root), in order; `None` for an
    /// ID that is neither.
    pub fn children(&self, id: &str) -> (r: Option<Vec<&Entry>>)
        requires
            self.wf(),
        ensures
            match r {
                Some(v) => (self.spec_children(id@) matches Some(s) && v@.len() == s.len() && (
                forall|k: int| 0 <= k < s.len() ==> (#[trigger] v@[k])@ == s[k])),
                None => self.spec_children(id@) is None,
            },
    {
        let a = match self.find_children(id) {
            Some(a) => a,
            None => {
                return None;
            },
        };
        let ghost l = self.list_views()[a as int].1;
        let ids = &self.children[a].ids;
        assert(l == ids_view(ids@));
        let mut out: Vec<&Entry> = Vec::new();
        let mut k: usize = 0;
        while k < ids.len()
            invariant
                self.wf(),
                a < self.list_views().len(),
                l == self.list_views()[a as int].1,
                l == ids_view(ids@),
                self.spec_child_ids(id@) == Some(l),
                k <= ids@.len(),
                out@.len() == k,
                forall|j: int| 0 <= j < k ==> (#[trigger] out@[j])@ == self.spec_entry(l[j])->0,
            decreases ids@.len() - k,
        {
            assert(l[k as int] == ids@[k as int]@);
            assert(self.spec_child_ids(id@) == Some(l));
            assert(self.spec_child_ids(id@)->0.contains(l[k as int]));
            assert(self.spec_entry(l[k as int]) is Some);
            match self.entry(ids[k].as_str()) {
                Some(e) => {
                    out.push(e);
                },
                None => {
                    assert(false);
                },
            }
            k = k + 1;
        }
        Some(out)
    }

    /// The child lists after inserting `e`: the new ID is appended to its
    /// parent's list (which is created if missing), and a new container gets
    /// an empty list unless it already has one.
    pub open spec fn lists_after_insert(&self, e: EntryView, p: Seq<char>) -> Option<
        Seq<Seq<char>>,
    > {
        if p == e.parent_id {
            Some(
                match self.spec_child_ids(p) {
                    Some(l) => l.push(e.id),
                    None => seq![e.id],
                },
            )
        } else if p == e.id && e.kind is Container {
            match self.spec_child_ids(p) {
                Some(l) => Some(l),
                None => Some(Seq::empty()),
            }
        } else {
            self.spec_child_ids(p)
        }
    }

    /// The position of the child list of `parent`, given distinct parents.
    fn find_list_index(&self, parent: &str) -> (r: Option<usize>)
        requires
            distinct_parents(self.list_views()),
        ensures
            match r {
                Some(a) => a < self.list_views().len() && self.list_views()[a as int].0
                    == parent@ && self.spec_child_ids(parent@) == Some(
                    self.list_views()[a as int].1,
                ),
                None => self.spec_child_ids(parent@) is None,
            },
    {
        let ghost lv = self.list_views();
        let mut a: usize = 0;
        while a < self.children.len()
            invariant
                distinct_parents(self.list_views()),
                lv == self.list_views(),
                lv.len() == self.children@.len(),
                a <= lv.len(),
                forall|b: int| 0 <= b < a ==> (#[trigger] lv[b]).0 != parent@,
            decreases lv.len() - a,
        {
            assert(lv[a as int].0 == self.children@[a as int].parent@);
            if crate::text::str_eq(self.children[a].parent.as_str(), parent) {
                proof {
                    lemma_find_list_at(lv, a as int);
                }
                return Some(a);
            }
            a = a + 1;
        }
        proof {
            lemma_find_list_none(lv, parent@);
        }
        None
    }

    /// Appends `id` to the child list of `parent`, creating the list if missing.
    fn add_child(&mut self, parent: &String, id: &String)
        requires
            distinct_parents(old(self).list_views()),
        ensures
            distinct_parents(final(self).list_views()),
            forall|p: Seq<char>|
                #[trigger] final(self).spec_child_ids(p) == (if p == parent@ {
                    Some(
                        match old(self).spec_child_ids(p) {
                            Some(l) => l.push(id@),
                            None => seq![id@],
                        },
                    )
                } else {
                    old(self).spec_child_ids(p)
                }),
            final(self).entries == old(self).entries,
            final(self).update_id == old(self).update_id,
            final(self).file_count == old(self).file_count,
            final(self).total_bytes == old(self).total_bytes,
    {
        let ghost lv = self.list_views();
        match self.find_list_index(parent.as_str()) {
            Some(a) => {
                let ghost old_ids = self.children@[a as int].ids@;
                self.children[a].ids.push(id.clone());
                proof {
                    let l = lv[a as int].1.push(id@);
                    assert(ids_view(self.children@[a as int].ids@) =~= l);
                    assert(self.list_views() =~= lv.update(a as int, (lv[a as int].0, l)));
                    assert forall|p: Seq<char>| #[trigger]
                        self.spec_child_ids(p) == (if p == parent@ {
                            Some(
                                match old(self).spec_child_ids(p) {
                                    Some(l) => l.push(id@),
                                    None => seq![id@],
                                },
                            )
                        } else {
                            old(self).spec_child_ids(p)
                        }) by {
                        lemma_find_list_update(lv, a as int, l, p);
                    }
                    lemma_find_list_update(lv, a as int, l, parent@);
                }
            },
            None => {
                let mut ids: Vec<String> = Vec::new();
                ids.push(id.clone());
                self.children.push(ChildList { parent: parent.clone(), ids });
                proof {
                    let l = seq![id@];
                    assert(ids_view(self.children@.last().ids@) =~= l);
                    assert(self.list_views() =~= lv.push((parent@, l)));
                    assert forall|p: Seq<char>| #[trigger]
                        self.spec_child_ids(p) == (if p == parent@ {
                            Some(
                                match old(self).spec_child_ids(p) {
                                    Some(l) => l.push(id@),
                                    None => seq![id@],
                                },
                            )
                        } else {
                            old(self).spec_child_ids(p)
                        }) by {
                        lemma_find_list_push(lv, parent@, l, p);
                    }
                    lemma_find_list_push(lv, parent@, l, parent@);
                }
            },
        }
    }

    /// Gives `id` an empty child list unless it already has one.
    fn ensure_list(&mut self, id: &String)
        requires
            distinct_parents(old(self).list_views()),
        ensures
            distinct_parents(final(self).list_views()),
            forall|p: Seq<char>|
                #[trigger] final(self).spec_child_ids(p) == (if p == id@ {
                    match old(self).spec_child_ids(p) {
                        Some(l) => Some(l),
                        None => Some(Seq::<Seq<char>>::empty()),
                    }
                } else {
                    old(self).spec_child_ids(p)
                }),
            final(self).entries == old(self).entries,
            final(self).update_id == old(self).update_id,
            final(self).file_count == old(self).file_count,
            final(self).total_bytes == old(self).total_bytes,
    {
        let ghost lv = self.list_views();
        match self.find_list_index(id.as_str()) {
            Some(_) => {},
            None => {
                self.children.push(ChildList { parent: id.clone(), ids: Vec::new() });
                proof {
                    let l = Seq::<Seq<char>>::empty();
                    assert(ids_view(self.children@.last().ids@) =~= l);
                    assert(self.list_views() =~= lv.push((id@, l)));
                    assert forall|p: Seq<char>| #[trigger]
                        self.spec_child_ids(p) == (if p == id@ {
                            match old(self).spec_child_ids(p) {
                                Some(l) => Some(l),
                                None => Some(Seq::<Seq<char>>::empty()),
                            }
                        } else {
                            old(self).spec_child_ids(p)
                        }) by {
                        lemma_find_list_push(lv, id@, l, p);
                    }
                    lemma_find_list_push(lv, id@, l, id@);
                }
            },
        }
    }

    /// Adds an entry under its parent. Fails, leaving the catalog as it was,
    /// when an entry with the same ID exists.
    pub fn insert_entry(&mut self, entry: Entry) -> (r: Result<(), ScanError>)
        requires
            old(self).wf(),
        ensures
            final(self).wf(),
            final(self).spec_update_id() == old(self).spec_update_id(),
            final(self).spec_file_count() == old(self).spec_file_count(),
            final(self).spec_total_bytes() == old(self).spec_total_bytes(),
            old(self).browse_shaped() && old(self).may_have_children(entry@.parent_id)
                ==> final(self).browse_shaped(),
            match r {
                Ok(()) => {
                    &&& old(self).spec_entry(entry@.id) is None
                    &&& forall|x: Seq<char>| #[trigger]
                        final(self).spec_entry(x) == (if x == entry@.id {
                            Some(entry@)
                        } else {
                            old(self).spec_entry(x)
                        })
                    &&& forall|p: Seq<char>| #[trigger]
                        final(self).spec_child_ids(p) == old(self).lists_after_insert(entry@, p)
                },
                Err(e) => {
                    &&& old(self).spec_entry(entry@.id) is Some
                    &&& e matches ScanError::IdCollision { first, second }
                    &&& first@ == old(self).spec_entry(entry@.id)->0.path
                    &&& second@ == entry@.path
                    &&& final(self).entry_views() == old(self).entry_views()
                    &&& final(self).list_views() == old(self).list_views()
                },
            },
    {
        let pos = match self.search(entry.id.as_str()) {
            Ok(i) => {
                proof {
                    self.lemma_distinct();
                    lemma_find_view_at(self.entry_views(), i as int);
                }
                let first = copy_bytes(&self.entries[i].path);
                return Err(ScanError::IdCollision { first, second: entry.path });
            },
            Err(p) => p,
        };
        let ghost old_ev = self.entry_views();
        proof {
            assert forall|k: int| 0 <= k < old_ev.len() implies (#[trigger] old_ev[k]).id
                != entry@.id by {
                if k < pos {
                    assert(str_lt(old_ev[k].id, entry@.id));
                } else {
                    assert(str_lt(entry@.id, old_ev[k].id));
                }
                crate::order::lemma_bytes_lt_irreflexive(encode_utf8(entry@.id));
            }
            lemma_find_view_none(old_ev, entry@.id);
        }
        let ghost pre = *old(self);
        self.add_child(&entry.parent_id, &entry.id);
        let is_container = match entry.kind {
            EntryKind::Container => true,
            EntryKind::Media(_) => false,
        };
        let ghost mid1 = *self;
        if is_container {
            self.ensure_list(&entry.id);
        }
        let ghost mid2 = *self;
        let ghost e = entry@;
        self.entries.insert(pos, entry);
        proof {
            assert(self.entry_views() =~= old_ev.insert(pos as int, e));
            assert forall|x: Seq<char>| #[trigger] self.spec_entry(x) == (if x == e.id {
                Some(e)
            } else {
                pre.spec_entry(x)
            }) by {
                lemma_insert_sorted(old_ev, pos as int, e, x);
            }
            lemma_insert_sorted(old_ev, pos as int, e, e.id);
            assert(self.list_views() == mid2.list_views());
            assert forall|p: Seq<char>| #[trigger]
                self.spec_child_ids(p) == pre.lists_after_insert(e, p) by {
                assert(self.spec_child_ids(p) == mid2.spec_child_ids(p));
                assert(mid1.spec_child_ids(p) == (if p == e.parent_id {
                    Some(
                        match pre.spec_child_ids(p) {
                            Some(l) => l.push(e.id),
                            None => seq![e.id],
                        },
                    )
                } else {
                    pre.spec_child_ids(p)
                }));
                if !is_container {
                    assert(mid2 == mid1);
                }
            }
            // children exist
            assert forall|p: Seq<char>, x: Seq<char>|
                #![trigger self.spec_child_ids(p)->0.contains(x)]
                self.spec_child_ids(p) is Some && self.spec_child_ids(p)->0.contains(x)
                    implies self.spec_entry(x) is Some by {
                if x != e.id {
                    let l = self.spec_child_ids(p)->0;
                    assert(self.spec_child_ids(p) == pre.lists_after_insert(e, p));
                    if p == e.parent_id {
                        match pre.spec_child_ids(p) {
                            Some(l0) => {
                                let k = choose|k: int| 0 <= k < l.len() && l[k] == x;
                                assert(l == l0.push(e.id));
                                assert(l0[k] == x);
                                assert(pre.spec_child_ids(p)->0.contains(x));
                            },
                            None => {
                                assert(l == seq![e.id]);
                                let k = choose|k: int| 0 <= k < l.len() && l[k] == x;
                            },
                        }
                    } else {
                        assert(pre.spec_child_ids(p)->0.contains(x));
                    }
                }
            }
            // entries listed under their parents
            assert forall|x: Seq<char>| #[trigger] self.spec_entry(x) is Some implies {
                let f = self.spec_entry(x)->0;
                &&& self.spec_child_ids(f.parent_id) is Some
                &&& self.spec_child_ids(f.parent_id)->0.contains(x)
            } by {
                let f = self.spec_entry(x)->0;
                assert(self.spec_child_ids(f.parent_id) == pre.lists_after_insert(e, f.parent_id));
                if x == e.id {
                    let l = self.spec_child_ids(e.parent_id)->0;
                    assert(l.last() == e.id);
                    assert(l[l.len() - 1] == e.id);
                } else {
                    assert(pre.spec_entry(x) is Some);
                    let l0 = pre.spec_child_ids(f.parent_id)->0;
                    assert(l0.contains(x));
                    let k = choose|k: int| 0 <= k < l0.len() && l0[k] == x;
                    if f.parent_id == e.parent_id {
                        assert(self.spec_child_ids(f.parent_id)->0 == l0.push(e.id));
                        assert(l0.push(e.id)[k] == x);
                    }
                }
            }
            // containers have lists
            assert forall|x: Seq<char>| #[trigger]
                self.spec_entry(x) is Some && self.spec_entry(x)->0.kind is Container
                implies self.spec_child_ids(x) is Some by {
                assert(self.spec_child_ids(x) == pre.lists_after_insert(e, x));
                if x != e.id {
                    assert(pre.spec_entry(x) is Some);
                }
            }
            assert(self.spec_child_ids(ROOT_ID@) == pre.lists_after_insert(e, ROOT_ID@));
            if pre.browse_shaped() && pre.may_have_children(e.parent_id) {
                let cur = *self;
                pre.lemma_shape_after_insert(&cur, e);
            }
        }
        Ok(())
    }

    /// Puts every child list in browse order (containers first, then by title,
    /// then by ID), keeping the same children.
    pub fn sort_children(&mut self)
        requires
            old(self).wf(),
        ensures
            final(self).wf(),
            final(self).entry_views() == old(self).entry_views(),
            final(self).spec_update_id() == old(self).spec_update_id(),
            final(self).spec_file_count() == old(self).spec_file_count(),
            final(self).spec_total_bytes() == old(self).spec_total_bytes(),
            old(self).browse_shaped() ==> final(self).browse_shaped(),
            forall|p: Seq<char>|
                (#[trigger] final(self).spec_child_ids(p) is Some) == old(self).spec_child_ids(
                    p,
                ) is Some,
            forall|p: Seq<char>|
                #![trigger final(self).spec_child_ids(p)]
                final(self).spec_child_ids(p) is Some ==> {
                    let l = final(self).spec_child_ids(p)->0;
                    &&& l.to_multiset() == old(self).spec_child_ids(p)->0.to_multiset()
                    &&& crate::order::sorted_by(
                        l,
                        |x: Seq<char>, y: Seq<char>| child_lt(final(self).entry_views(), x, y),
                    )
                },
    {
        let ghost ev = self.entry_views();
        let ghost lv0 = self.list_views();
        let ghost lt = |x: Seq<char>, y: Seq<char>| child_lt(ev, x, y);
        proof {
            lemma_child_lt_order(ev);
            assert(self.entries@.map_values(|e: Entry| e@) == ev);
        }
        let n = self.children.len();
        let mut a: usize = 0;
        while a < n
            invariant
                n == self.children@.len(),
                a <= n,
                self.entry_views() == ev,
                self.entries@.map_values(|e: Entry| e@) == ev,
                ids_sorted(ev),
                self.update_id == old(self).update_id,
                self.file_count == old(self).file_count,
                self.total_bytes == old(self).total_bytes,
                lv0 == old(self).list_views(),
                ev == old(self).entry_views(),
                lt == (|x: Seq<char>, y: Seq<char>| child_lt(ev, x, y)),
                self.list_views().len() == lv0.len(),
                forall|x: Seq<char>, y: Seq<char>, z: Seq<char>|
                    #[trigger] child_lt(ev, x, y) && #[trigger] child_lt(ev, y, z) ==> child_lt(
                        ev,
                        x,
                        z,
                    ),
                forall|x: Seq<char>, y: Seq<char>| #[trigger] child_lt(ev, x, y) ==> !child_lt(ev, y, x),
                forall|b: int| 0 <= b < lv0.len() ==> (#[trigger] self.list_views()[b]).0 == lv0[b].0,
                forall|b: int|
                    a <= b < lv0.len() ==> (#[trigger] self.list_views()[b]).1 == lv0[b].1,
                forall|b: int|
                    0 <= b < a ==> (#[trigger] self.list_views()[b]).1.to_multiset()
                        == lv0[b].1.to_multiset() && crate::order::sorted_by(
                        self.list_views()[b].1,
                        lt,
                    ),
            decreases n - a,
        {
            let ghost before = self.list_views();
            let ghost slt = |x: String, y: String| child_lt(ev, x@, y@);
            let entries = &self.entries;
            let ids = &mut self.children[a].ids;
            let ghost ids0 = ids@;
            let less = (|x: &String, y: &String| -> (r: bool)
                ensures
                    r == child_lt(entries@.map_values(|e: Entry| e@), x@, y@),
                { child_less(entries, x, y) });
            proof {
                assert forall|x: String, y: String, z: String|
                    #[trigger] slt(x, y) && #[trigger] slt(y, z) implies slt(x, z) by {
                    assert(child_lt(ev, x@, y@) && child_lt(ev, y@, z@));
                }
                assert forall|x: String, y: String| #[trigger] slt(x, y) implies !slt(y, x) by {
                    assert(child_lt(ev, x@, y@));
                }
                assert(crate::order::transitive(slt));
            }
            sort_by(ids, less, Ghost(slt));
            proof {
                lemma_map_multiset(ids@, ids0, |s: String| s@);
                let l = ids_view(ids@);
                assert(self.list_views() =~= before.update(a as int, (before[a as int].0, l)));
                assert forall|i: int, j: int| 0 <= i < j < l.len() implies !lt(
                    #[trigger] l[j],
                    #[trigger] l[i],
                ) by {
                    assert(l[j] == ids@[j]@ && l[i] == ids@[i]@);
                    assert(!slt(ids@[j], ids@[i]));
                }
            }
            a = a + 1;
        }
        proof {
            let lv = self.list_views();
            assert(distinct_parents(lv)) by {
                assert forall|x: int, y: int| 0 <= x < y < lv.len() implies (#[trigger] lv[x]).0
                    != (#[trigger] lv[y]).0 by {
                    assert(lv[x].0 == lv0[x].0 && lv[y].0 == lv0[y].0);
                }
            }
            assert forall|p: Seq<char>|
                #![trigger self.spec_child_ids(p)]
                (self.spec_child_ids(p) is Some) == (old(self).spec_child_ids(p) is Some) && (
                self.spec_child_ids(p) is Some ==> {
                    let l = self.spec_child_ids(p)->0;
                    &&& l.to_multiset() == old(self).spec_child_ids(p)->0.to_multiset()
                    &&& crate::order::sorted_by(l, lt)
                }) by {
                lemma_find_list_same_keys(lv0, lv, p);
            }
            assert forall|p: Seq<char>, x: Seq<char>|
                #![trigger self.spec_child_ids(p)->0.contains(x)]
                self.spec_child_ids(p) is Some && self.spec_child_ids(p)->0.contains(x)
                    implies self.spec_entry(x) is Some by {
                lemma_find_list_same_keys(lv0, lv, p);
                vstd::seq_lib::to_multiset_contains(self.spec_child_ids(p)->0, x);
                vstd::seq_lib::to_multiset_contains(old(self).spec_child_ids(p)->0, x);
                assert(old(self).spec_child_ids(p)->0.contains(x));
            }
            assert forall|x: Seq<char>| #[trigger] self.spec_entry(x) is Some implies {
                let f = self.spec_entry(x)->0;
                &&& self.spec_child_ids(f.parent_id) is Some
                &&& self.spec_child_ids(f.parent_id)->0.contains(x)
            } by {
                let f = self.spec_entry(x)->0;
                assert(old(self).spec_entry(x) is Some);
                lemma_find_list_same_keys(lv0, lv, f.parent_id);
                vstd::seq_lib::to_multiset_contains(self.spec_child_ids(f.parent_id)->0, x);
                vstd::seq_lib::to_multiset_contains(old(self).spec_child_ids(f.parent_id)->0, x);
            }
            assert forall|x: Seq<char>| #[trigger]
                self.spec_entry(x) is Some && self.spec_entry(x)->0.kind is Container
                implies self.spec_child_ids(x) is Some by {
                assert(old(self).spec_entry(x) is Some);
                lemma_find_list_same_keys(lv0, lv, x);
            }
            lemma_find_list_same_keys(lv0, lv, ROOT_ID@);
            if old(self).browse_shaped() {
                let cur = *self;
                let pre = *old(self);
                pre.lemma_shape_after_reorder(&cur);
            }
        }
    }

    /// The content fingerprint of the catalog's entries, taken in ID order.
    pub fn content_fingerprint(&self) -> (r: u32)
        ensures
            r == fingerprint_of(self.entry_views()),
    {
        let ghost ev = self.entry_views();
        let mut hash: u64 = FNV_OFFSET;
        let mut i: usize = 0;
        while i < self.entries.len()
            invariant
                ev == self.entry_views(),
                ev.len() == self.entries@.len(),
                i <= ev.len(),
                hash == fingerprint_fold(FNV_OFFSET, ev.take(i as int)),
            decreases ev.len() - i,
        {
            hash_entry(&mut hash, &self.entries[i]);
            proof {
                let t = ev.take(i + 1);
                assert(t.drop_last() == ev.take(i as int));
                assert(t.last() == self.entries@[i as int]@);
            }
            i = i + 1;
        }
        assert(ev.take(ev.len() as int) == ev);
        fold_update_id(hash)
    }

    /// The update ID of one object: for the root and containers a fingerprint
    /// of the container's ID and of each child's ID, title, modification time
    /// and size; for anything else the catalog-wide update ID.
    pub open spec fn spec_object_update_id(&self, id: Seq<char>) -> u32 {
        match self.spec_child_ids(id) {
            Some(l) => fold_hash(
                update_fold(self.entry_views(), hash_field(FNV_OFFSET, utf8(id)), l),
            ),
            None => self.spec_update_id(),
        }
    }

    /// The update ID of one object (see `spec_object_update_id`).
    pub fn object_update_id(&self, id: &str) -> (r: u32)
        requires
            self.wf(),
        ensures
            r == self.spec_object_update_id(id@),
    {
        let a = match self.find_children(id) {
            Some(a) => a,
            None => {
                return self.update_id;
            },
        };
        let ghost ev = self.entry_views();
        let ghost l = self.list_views()[a as int].1;
        let ids = &self.children[a].ids;
        let mut hash: u64 = FNV_OFFSET;
        hash_str(&mut hash, id);
        let ghost h0 = hash;
        let mut k: usize = 0;
        while k < ids.len()
            invariant
                self.wf(),
                ev == self.entry_views(),
                l == ids_view(ids@),
                k <= ids@.len(),
                hash == update_fold(ev, h0, l.take(k as int)),
            decreases ids@.len() - k,
        {
            hash_str(&mut hash, ids[k].as_str());
            let found = self.entry(ids[k].as_str());
            match found {
                Some(e) => {
                    hash_str(&mut hash, e.title.as_str());
                    hash_u64(&mut hash, e.modified_seconds);
                    hash_u64(&mut hash, e.size);
                },
                None => {},
            }
            proof {
                let t = l.take(k + 1);
                assert(t.drop_last() == l.take(k as int));
                assert(t.last() == ids@[k as int]@);
            }
            k = k + 1;
        }
        assert(l.take(l.len() as int) == l);
        fold_update_id(hash)
    }

    /// The two catalogs hold the same entries and the same child lists.
    pub open spec fn spec_same_content(&self, other: &Catalog) -> bool {
        &&& forall|x: Seq<char>| #[trigger] self.spec_entry(x) == other.spec_entry(x)
        &&& forall|p: Seq<char>| #[trigger] self.spec_child_ids(p) == other.spec_child_ids(p)
    }

    /// Whether two catalogs hold the same entries and the same child lists.
    pub fn has_same_content(&self, other: &Catalog) -> (r: bool)
        requires
            self.wf(),
            other.wf(),
        ensures
            r == self.spec_same_content(other),
    {
        let ghost ev = self.entry_views();
        let ghost fv = other.entry_views();
        let same_entries = self.same_entries(other);
        proof {
            if same_entries {
                assert(ev == fv);
            } else {
                assert(ev != fv);
                if forall|x: Seq<char>| #[trigger] self.spec_entry(x) == other.spec_entry(x) {
                    assert forall|x: Seq<char>| #[trigger] find_view(ev, x) == find_view(fv, x) by {
                        assert(self.spec_entry(x) == other.spec_entry(x));
                    }
                    lemma_sorted_unique(ev, fv);
                }
            }
        }
        if !same_entries {
            return false;
        }
        let covered = self.lists_within(other) && other.lists_within(self);
        proof {
            let s = self.list_views();
            let t = other.list_views();
            if covered {
                assert forall|p: Seq<char>| #[trigger] self.spec_child_ids(p)
                    == other.spec_child_ids(p) by {
                    match find_list(s, p) {
                        Some(_) => {
                            lemma_find_list_some(s, p);
                        },
                        None => {
                            if find_list(t, p) is Some {
                                lemma_find_list_some(t, p);
                            }
                        },
                    }
                }
            } else {
                if forall|p: Seq<char>| #[trigger] self.spec_child_ids(p) == other.spec_child_ids(p) {
                    assert forall|a: int| 0 <= a < s.len() implies #[trigger] find_list(t, s[a].0)
                        == Some(s[a].1) by {
                        lemma_find_list_at(s, a);
                        assert(self.spec_child_ids(s[a].0) == other.spec_child_ids(s[a].0));
                    }
                    assert forall|a: int| 0 <= a < t.len() implies #[trigger] find_list(s, t[a].0)
                        == Some(t[a].1) by {
                        lemma_find_list_at(t, a);
                        assert(self.spec_child_ids(t[a].0) == other.spec_child_ids(t[a].0));
                    }
                }
            }
        }
        covered
    }

    fn same_entries(&self, other: &Catalog) -> (r: bool)
        requires
            self.wf(),
            other.wf(),
        ensures
            r == (self.entry_views() == other.entry_views()),
    {
        let ghost ev = self.entry_views();
        let ghost fv = other.entry_views();
        if self.entries.len() != other.entries.len() {
            return false;
        }
        let mut i: usize = 0;
        while i < self.entries.len()
            invariant
                ev == self.entry_views(),
                fv == other.entry_views(),
                ev.len() == fv.len(),
                ev.len() == self.entries@.len(),
                fv.len() == other.entries@.len(),
                i <= ev.len(),
                forall|k: int| 0 <= k < i ==> #[trigger] ev[k] == fv[k],
            decreases ev.len() - i,
        {
            if !entry_eq(&self.entries[i], &other.entries[i]) {
                assert(ev[i as int] != fv[i as int]);
                return false;
            }
            i = i + 1;
        }
        assert(ev =~= fv);
        true
    }

    /// Whether every child list of `self` occurs, with the same children, in `other`.
    fn lists_within(&self, other: &Catalog) -> (r: bool)
        requires
            self.wf(),
            other.wf(),
        ensures
            r == (forall|a: int|
                0 <= a < self.list_views().len() ==> #[trigger] find_list(
                    other.list_views(),
                    self.list_views()[a].0,
                ) == Some(self.list_views()[a].1)),
    {
        let ghost s = self.list_views();
        let mut a: usize = 0;
        while a < self.children.len()
            invariant
                other.wf(),
                s == self.list_views(),
                s.len() == self.children@.len(),
                a <= s.len(),
                forall|b: int|
                    0 <= b < a ==> #[trigger] find_list(other.list_views(), s[b].0) == Some(s[b].1),
            decreases s.len() - a,
        {
            let c = &self.children[a];
            assert(s[a as int] == (c.parent@, ids_view(c.ids@)));
            match other.find_children(c.parent.as_str()) {
                Some(b) => {
                    assert(other.list_views()[b as int].1 == ids_view(other.children@[b as int].ids@));
                    if !id_lists_eq(&c.ids, &other.children[b].ids) {
                        assert(find_list(other.list_views(), s[a as int].0) != Some(s[a as int].1));
                        return false;
                    }
                },
                None => {
                    assert(find_list(other.list_views(), s[a as int].0) != Some(s[a as int].1));
                    return false;
                },
            }
            a = a + 1;
        }
        true
    }

    /// Counts one more media file of `size` bytes (the byte total saturates).
    pub(crate) fn record_file(&mut self, size: u64)
        requires
            old(self).spec_file_count() < usize::MAX,
        ensures
            final(self).spec_file_count() == old(self).spec_file_count() + 1,
            final(self).spec_total_bytes() == (if old(self).spec_total_bytes() + size > u64::MAX {
                u64::MAX as int
            } else {
                old(self).spec_total_bytes() + size
            }),
            final(self).entry_views() == old(self).entry_views(),
            final(self).list_views() == old(self).list_views(),
            final(self).spec_update_id() == old(self).spec_update_id(),
            old(self).wf() ==> final(self).wf(),
            old(self).browse_shaped() ==> final(self).browse_shaped(),
    {
        let ghost before = *self;
        self.file_count = self.file_count + 1;
        self.total_bytes = self.total_bytes.saturating_add(size);
        proof {
            assert(self.entries == before.entries && self.children == before.children);
            assert(self.entry_views() == before.entry_views());
            assert(self.list_views() == before.list_views());
            assert forall|p: Seq<char>| #[trigger] self.spec_child_ids(p) == before.spec_child_ids(p) by {
            }
            assert forall|x: Seq<char>| #[trigger] self.spec_entry(x) == before.spec_entry(x) by {
            }
        }
    }

    /// Completes a scanned catalog: child lists in browse order and the
    /// update ID set to the content fingerprint.
    pub(crate) fn seal(&mut self)
        requires
            old(self).wf(),
        ensures
            final(self).wf(),
            final(self).entry_views() == old(self).entry_views(),
            final(self).spec_update_id() == fingerprint_of(old(self).entry_views()),
            final(self).sealed(),
            final(self).spec_file_count() == old(self).spec_file_count(),
            final(self).spec_total_bytes() == old(self).spec_total_bytes(),
            old(self).browse_shaped() ==> final(self).browse_shaped(),
            forall|p: Seq<char>|
                (#[trigger] final(self).spec_child_ids(p) is Some) == old(self).spec_child_ids(
                    p,
                ) is Some,
            forall|p: Seq<char>|
                #![trigger final(self).spec_child_ids(p)]
                final(self).spec_child_ids(p) is Some ==> {
                    let l = final(self).spec_child_ids(p)->0;
                    &&& l.to_multiset() == old(self).spec_child_ids(p)->0.to_multiset()
                    &&& crate::order::sorted_by(
                        l,
                        |x: Seq<char>, y: Seq<char>| child_lt(final(self).entry_views(), x, y),
                    )
                },
    {
        self.sort_children();
        let ghost sorted = *self;
        self.update_id = self.content_fingerprint();
        proof {
            assert(self.entries == sorted.entries && self.children == sorted.children);
            assert(self.entry_views() == sorted.entry_views());
            assert(self.list_views() == sorted.list_views());
            assert forall|p: Seq<char>| #[trigger] self.spec_child_ids(p) == sorted.spec_child_ids(p) by {
            }
            assert forall|x: Seq<char>| #[trigger] self.spec_entry(x) == sorted.spec_entry(x) by {
            }
        }
    }

    /// The number of children of `id` (0 when `id` is not a container).
    pub fn child_count(&self, id: &str) -> (r: usize)
        requires
            self.wf(),
        ensures
            r == self.spec_child_count(id@),
    {
        match self.find_children(id) {
            Some(a) => self.children[a].ids.len(),
            None => 0,
        }
    }

    /// The catalog-wide update ID.
    pub fn update_id(&self) -> (r: u32)
        ensures
            r == self.spec_update_id(),
    {
        self.update_id
    }

    /// The number of media files.
    pub fn file_count(&self) -> (r: usize)
        ensures
            r == self.spec_file_count(),
    {
        self.file_count
    }

    /// The total size of the media files in bytes (saturating).
    pub fn total_bytes(&self) -> (r: u64)
        ensures
            r == self.spec_total_bytes(),
    {
        self.total_bytes
    }
}

/// What a rescan does with the catalog being served.
#[derive(Debug, Clone, Copy, PartialEq, Eq, Structural)]
pub enum RescanAction {
    /// Keep serving the current catalog: the rescan failed, or found the
    /// same content.
    Keep,
    /// Serve the new catalog and announce its update ID to subscribers.
    Replace { update_id: u32 },
}

/// The outcome of a rescan for the current catalog: a failed rescan
/// (`None`) leaves the last good catalog in place, and so does one with the
/// same content; otherwise the new catalog replaces it, announced with its
/// own update ID.
pub open spec fn spec_rescan_action(current: &Catalog, scanned: Option<&Catalog>) -> RescanAction {
    match scanned {
        None => RescanAction::Keep,
        Some(c) => if current.spec_same_content(c) {
            RescanAction::Keep
        } else {
            RescanAction::Replace { update_id: c.spec_update_id() }
        },
    }
}

/// Decides what a rescan does with the current catalog.
pub fn rescan_action(current: &Catalog, scanned: Option<&Catalog>) -> (r: RescanAction)
    requires
        current.wf(),
        scanned matches Some(c) ==> c.wf(),
    ensures
        r == spec_rescan_action(current, scanned),
{
    match scanned {
        None => RescanAction::Keep,
        Some(c) => if current.has_same_content(c) {
            RescanAction::Keep
        } else {
            RescanAction::Replace { update_id: c.update_id() }
        },
    }
}

/// Two well-formed catalogs that hold the same entries have the same content
/// fingerprint, in whatever order the entries were added.
pub proof fn lemma_fingerprint_depends_only_on_entries(a: &Catalog, b: &Catalog)
    requires
        a.wf(),
        b.wf(),
        forall|x: Seq<char>| #[trigger] a.spec_entry(x) == b.spec_entry(x),
    ensures
        fingerprint_of(a.entry_views()) == fingerprint_of(b.entry_views()),
{
    assert forall|x: Seq<char>| #[trigger] find_view(a.entry_views(), x) == find_view(
        b.entry_views(),
        x,
    ) by {
        assert(a.spec_entry(x) == b.spec_entry(x));
    }
    lemma_sorted_unique(a.entry_views(), b.entry_views());
}

/// Two scanned catalogs (whose update ID is their content fingerprint) with
/// the same content have the same update ID, whatever order the scans met
/// the files in and in whichever run they were made.
pub proof fn lemma_same_content_same_update_id(a: &Catalog, b: &Catalog)
    requires
        a.wf(),
        b.wf(),
        a.sealed(),
        b.sealed(),
        a.spec_same_content(b),
    ensures
        a.spec_update_id() == b.spec_update_id(),
{
    lemma_fingerprint_depends_only_on_entries(a, b);
}

} // verus!
