//! The generic in-memory feed document that a feed-parsing collaborator
//! yields: a sequence of entries, each with an identifier, an optional title,
//! an optional publish timestamp, and zero or more media references.

use vstd::prelude::*;

verus! {

/// One media reference of a feed entry: the declared top-level MIME type
/// (the part before the `/`, e.g. `audio`), if any, and the resource URL,
/// if any.
pub struct Media {
    pub mime_type: Option<String>,
    pub url: Option<String>,
}

/// The mathematical value of a [`Media`].
pub ghost struct MediaView {
    pub mime_type: Option<Seq<char>>,
    pub url: Option<Seq<char>>,
}

impl View for Media {
    type V = MediaView;

    open spec fn view(&self) -> MediaView {
        MediaView { mime_type: self.mime_type.deep_view(), url: self.url.deep_view() }
    }
}

impl DeepView for Media {
    type V = MediaView;

    open spec fn deep_view(&self) -> MediaView {
        self.view()
    }
}

/// One raw feed entry: its stable identifier, an optional display title, an
/// optional publish timestamp (seconds since the Unix epoch), and its media
/// references in document order.
pub struct Entry {
    pub id: String,
    pub title: Option<String>,
    pub published: Option<i64>,
    pub media: Vec<Media>,
}

/// The mathematical value of an [`Entry`].
pub ghost struct EntryView {
    pub id: Seq<char>,
    pub title: Option<Seq<char>>,
    pub published: Option<int>,
    pub media: Seq<MediaView>,
}

impl View for Entry {
    type V = EntryView;

    open spec fn view(&self) -> EntryView {
        EntryView {
            id: self.id@,
            title: self.title.deep_view(),
            published: match self.published {
                Some(t) => Some(t as int),
                None => None,
            },
            media: self.media.deep_view(),
        }
    }
}

impl DeepView for Entry {
    type V = EntryView;

    open spec fn deep_view(&self) -> EntryView {
        self.view()
    }
}

/// A parsed feed document, reduced to what fetch planning reads: its entries
/// in document order.
pub struct FeedDocument {
    pub entries: Vec<Entry>,
}

impl View for FeedDocument {
    type V = Seq<EntryView>;

    open spec fn view(&self) -> Seq<EntryView> {
        self.entries.deep_view()
    }
}

} // verus!
