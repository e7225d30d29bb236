//! The episode index builder: normalizes a feed document into an ordered,
//! newest-first sequence of downloadable episodes.
//!
//! An entry yields an episode only if it has a publish timestamp strictly
//! before `now` and at least one media reference whose declared MIME
//! top-level type is `audio` and which carries a URL (the first such
//! reference wins, in document order). Qualifying episodes are ordered by
//! publish timestamp, most recent first; entries with equal timestamps keep
//! their document order.

use vstd::prelude::*;

use crate::document::{Entry, EntryView, FeedDocument, Media, MediaView};

verus! {

/// The optional display metadata of an episode.
pub struct EpisodeMeta {
    pub title: Option<String>,
}

/// The mathematical value of an [`EpisodeMeta`].
pub ghost struct EpisodeMetaView {
    pub title: Option<Seq<char>>,
}

impl View for EpisodeMeta {
    type V = EpisodeMetaView;

    open spec fn view(&self) -> EpisodeMetaView {
        EpisodeMetaView { title: self.title.deep_view() }
    }
}

impl DeepView for EpisodeMeta {
    type V = EpisodeMetaView;

    open spec fn deep_view(&self) -> EpisodeMetaView {
        self.view()
    }
}

impl Clone for EpisodeMeta {
    fn clone(&self) -> (r: Self)
        ensures
            r == *self,
    {
        EpisodeMeta {
            title: match &self.title {
                Some(t) => Some(t.clone()),
                None => None,
            },
        }
    }
}

/// A downloadable episode candidate: its feed-scoped identifier, display
/// metadata, audio resource URL, and publish timestamp (seconds since the
/// Unix epoch).
pub struct Episode {
    pub meta: EpisodeMeta,
    pub id: String,
    pub url: String,
    pub when: i64,
}

/// The mathematical value of an [`Episode`].
pub ghost struct EpisodeView {
    pub meta: EpisodeMetaView,
    pub id: Seq<char>,
    pub url: Seq<char>,
    pub when: int,
}

impl View for Episode {
    type V = EpisodeView;

    open spec fn view(&self) -> EpisodeView {
        EpisodeView { meta: self.meta@, id: self.id@, url: self.url@, when: self.when as int }
    }
}

impl DeepView for Episode {
    type V = EpisodeView;

    open spec fn deep_view(&self) -> EpisodeView {
        self.view()
    }
}

impl Clone for Episode {
    fn clone(&self) -> (r: Self)
        ensures
            r == *self,
    {
        Episode { meta: self.meta.clone(), id: self.id.clone(), url: self.url.clone(), when: self.when }
    }
}

/// One feed's episode index: newest first.
pub type FeedIndex = Vec<Episode>;

/// Whether a media reference is a downloadable audio resource: its declared
/// MIME top-level type is `audio` and it carries a URL.
pub open spec fn media_is_audio(m: MediaView) -> bool {
    &&& m.mime_type matches Some(t) && t == "audio"@
    &&& m.url is Some
}

/// The URL of the first downloadable audio media reference, in document
/// order, if any.
pub open spec fn first_audio_url(media: Seq<MediaView>) -> Option<Seq<char>>
    decreases media.len(),
{
    if media.len() == 0 {
        None
    } else if media_is_audio(media[0]) {
        media[0].url
    } else {
        first_audio_url(media.drop_first())
    }
}

/// Whether an entry yields an episode: it has a publish timestamp strictly
/// before `now` and a downloadable audio media reference.
pub open spec fn entry_qualifies(e: EntryView, now: int) -> bool {
    &&& e.published is Some
    &&& e.published->0 < now
    &&& first_audio_url(e.media) is Some
}

/// The episode a qualifying entry yields.
pub open spec fn episode_of_entry(e: EntryView) -> EpisodeView {
    EpisodeView {
        meta: EpisodeMetaView { title: e.title },
        id: e.id,
        url: match first_audio_url(e.media) {
            Some(u) => u,
            None => Seq::empty(),
        },
        when: match e.published {
            Some(t) => t,
            None => 0,
        },
    }
}

/// Whether a sequence of episodes is ordered by publish timestamp, most
/// recent first.
pub open spec fn sorted_desc(s: Seq<EpisodeView>) -> bool {
    forall|i: int, j: int|
        #![trigger s[i].when, s[j].when]
        0 <= i <= j < s.len() ==> s[i].when >= s[j].when
}

/// Stable descending insertion: `e` goes in front of the first episode
/// strictly older than it, after all episodes at least as recent.
pub open spec fn insert_desc(s: Seq<EpisodeView>, e: EpisodeView) -> Seq<EpisodeView>
    decreases s.len(),
{
    if s.len() == 0 {
        seq![e]
    } else if e.when > s[0].when {
        seq![e] + s
    } else {
        seq![s[0]] + insert_desc(s.drop_first(), e)
    }
}

/// The episode index of a document's entries: each qualifying entry's
/// episode, stably sorted by publish timestamp descending.
pub open spec fn episode_index(entries: Seq<EntryView>, now: int) -> Seq<EpisodeView>
    decreases entries.len(),
{
    if entries.len() == 0 {
        Seq::empty()
    } else {
        let prev = episode_index(entries.drop_last(), now);
        if entry_qualifies(entries.last(), now) {
            insert_desc(prev, episode_of_entry(entries.last()))
        } else {
            prev
        }
    }
}

proof fn lemma_insert_desc_len(s: Seq<EpisodeView>, e: EpisodeView)
    ensures
        insert_desc(s, e).len() == s.len() + 1,
    decreases s.len(),
{
    if s.len() == 0 {
    } else if e.when > s[0].when {
    } else {
        lemma_insert_desc_len(s.drop_first(), e);
    }
}

proof fn lemma_insert_desc_contains(s: Seq<EpisodeView>, e: EpisodeView)
    ensures
        forall|x: EpisodeView|
            #![trigger insert_desc(s, e).contains(x)]
            #![trigger s.contains(x)]
            insert_desc(s, e).contains(x) <==> s.contains(x) || x == e,
    decreases s.len(),
{
    if s.len() == 0 {
        assert(insert_desc(s, e)[0] == e);
        assert forall|x: EpisodeView| #[trigger] insert_desc(s, e).contains(x) implies s.contains(x) || x == e by {
            let i = choose|i: int| 0 <= i < insert_desc(s, e).len() && insert_desc(s, e)[i] == x;
            assert(i == 0);
        }
    } else if e.when > s[0].when {
        let r = seq![e] + s;
        assert(r[0] == e);
        assert forall|x: EpisodeView| s.contains(x) implies #[trigger] r.contains(x) by {
            let i = choose|i: int| 0 <= i < s.len() && s[i] == x;
            assert(r[i + 1] == x);
        }
        assert forall|x: EpisodeView| #[trigger] r.contains(x) implies s.contains(x) || x == e by {
            let i = choose|i: int| 0 <= i < r.len() && r[i] == x;
            if i > 0 {
                assert(s[i - 1] == x);
            }
        }
    } else {
        lemma_insert_desc_contains(s.drop_first(), e);
        let rest = insert_desc(s.drop_first(), e);
        let r = seq![s[0]] + rest;
        assert(r[0] == s[0]);
        assert(s.contains(s[0]));
        assert forall|x: EpisodeView| s.contains(x) || x == e implies #[trigger] r.contains(x) by {
            if x == e {
                assert(rest.contains(e));
                let i = choose|i: int| 0 <= i < rest.len() && rest[i] == x;
                assert(r[i + 1] == x);
            } else {
                let i = choose|i: int| 0 <= i < s.len() && s[i] == x;
                if i == 0 {
                    assert(r[0] == x);
                } else {
                    assert(s.drop_first()[i - 1] == x);
                    assert(s.drop_first().contains(x));
                    assert(rest.contains(x));
                    let k = choose|k: int| 0 <= k < rest.len() && rest[k] == x;
                    assert(r[k + 1] == x);
                }
            }
        }
        assert forall|x: EpisodeView| #[trigger] r.contains(x) implies s.contains(x) || x == e by {
            let i = choose|i: int| 0 <= i < r.len() && r[i] == x;
            if i == 0 {
                assert(s[0] == x);
            } else {
                assert(rest[i - 1] == x);
                assert(rest.contains(x));
                if s.drop_first().contains(x) {
                    let k = choose|k: int| 0 <= k < s.drop_first().len() && s.drop_first()[k] == x;
                    assert(s[k + 1] == x);
                }
            }
        }
    }
}

proof fn lemma_insert_desc_sorted(s: Seq<EpisodeView>, e: EpisodeView)
    requires
        sorted_desc(s),
    ensures
        sorted_desc(insert_desc(s, e)),
    decreases s.len(),
{
    if s.len() == 0 {
    } else if e.when > s[0].when {
    } else {
        assert(sorted_desc(s.drop_first()));
        lemma_insert_desc_sorted(s.drop_first(), e);
        lemma_insert_desc_len(s.drop_first(), e);
        lemma_insert_desc_contains(s.drop_first(), e);
        let rest = insert_desc(s.drop_first(), e);
        let r = seq![s[0]] + rest;
        assert forall|k: int| 0 <= k < rest.len() implies s[0].when >= #[trigger] rest[k].when by {
            assert(rest.contains(rest[k]));
            if rest[k] == e {
            } else {
                assert(s.drop_first().contains(rest[k]));
                let m = choose|m: int| 0 <= m < s.drop_first().len() && s.drop_first()[m] == rest[k];
                assert(s[m + 1] == rest[k]);
            }
        }
        assert forall|i: int, j: int| 0 <= i <= j < r.len() implies r[i].when >= r[j].when by {
            if i == 0 {
                if j > 0 {
                    assert(r[j] == rest[j - 1]);
                }
            } else {
                assert(r[i] == rest[i - 1] && r[j] == rest[j - 1]);
            }
        }
    }
}

proof fn lemma_insert_desc_at(s: Seq<EpisodeView>, e: EpisodeView, j: int)
    requires
        sorted_desc(s),
        0 <= j <= s.len(),
        forall|k: int| 0 <= k < j ==> #[trigger] s[k].when >= e.when,
        j < s.len() ==> s[j].when < e.when,
    ensures
        insert_desc(s, e) == s.insert(j, e),
    decreases s.len(),
{
    if s.len() == 0 {
        assert(insert_desc(s, e) =~= s.insert(0, e));
    } else if j == 0 {
        assert(s[0].when < e.when);
        assert(insert_desc(s, e) =~= s.insert(0, e));
    } else {
        assert(s[0].when >= e.when);
        assert(sorted_desc(s.drop_first()));
        assert forall|k: int| 0 <= k < j - 1 implies #[trigger] s.drop_first()[k].when >= e.when by {
            assert(s[k + 1].when >= e.when);
        }
        if j - 1 < s.drop_first().len() {
            assert(s.drop_first()[j - 1] == s[j]);
        }
        lemma_insert_desc_at(s.drop_first(), e, j - 1);
        assert(seq![s[0]] + s.drop_first().insert(j - 1, e) =~= s.insert(j, e));
    }
}

proof fn lemma_episode_index_sorted(entries: Seq<EntryView>, now: int)
    ensures
        sorted_desc(episode_index(entries, now)),
    decreases entries.len(),
{
    if entries.len() == 0 {
    } else {
        lemma_episode_index_sorted(entries.drop_last(), now);
        if entry_qualifies(entries.last(), now) {
            lemma_insert_desc_sorted(
                episode_index(entries.drop_last(), now),
                episode_of_entry(entries.last()),
            );
        }
    }
}

proof fn lemma_episode_index_membership(entries: Seq<EntryView>, now: int)
    ensures
        forall|ep: EpisodeView|
            #[trigger] episode_index(entries, now).contains(ep) <==> exists|k: int|
                0 <= k < entries.len() && entry_qualifies(#[trigger] entries[k], now) && ep
                    == episode_of_entry(entries[k]),
    decreases entries.len(),
{
    let idx = episode_index(entries, now);
    if entries.len() == 0 {
        assert forall|ep: EpisodeView| !(#[trigger] idx.contains(ep)) by {
            assert(idx.len() == 0);
        }
    } else {
        let prefix = entries.drop_last();
        let prev = episode_index(prefix, now);
        lemma_episode_index_membership(prefix, now);
        if entry_qualifies(entries.last(), now) {
            lemma_insert_desc_contains(prev, episode_of_entry(entries.last()));
        }
        assert forall|ep: EpisodeView| #[trigger] idx.contains(ep) implies exists|k: int|
            0 <= k < entries.len() && entry_qualifies(#[trigger] entries[k], now) && ep
                == episode_of_entry(entries[k]) by {
            if prev.contains(ep) {
                let k = choose|k: int|
                    0 <= k < prefix.len() && entry_qualifies(#[trigger] prefix[k], now) && ep
                        == episode_of_entry(prefix[k]);
                assert(entries[k] == prefix[k]);
                assert(entry_qualifies(entries[k], now) && ep == episode_of_entry(entries[k]));
            } else {
                let k = entries.len() - 1;
                assert(entries[k] == entries.last());
                assert(entry_qualifies(entries[k], now) && ep == episode_of_entry(entries[k]));
            }
        }
        assert forall|k: int|
            0 <= k < entries.len() && entry_qualifies(#[trigger] entries[k], now) implies idx.contains(
            episode_of_entry(entries[k]),
        ) by {
            if k < entries.len() - 1 {
                assert(prefix[k] == entries[k]);
                assert(0 <= k < prefix.len() && entry_qualifies(prefix[k], now)
                    && episode_of_entry(prefix[k]) == episode_of_entry(prefix[k]));
                assert(exists|m: int|
                    0 <= m < prefix.len() && entry_qualifies(#[trigger] prefix[m], now)
                        && episode_of_entry(prefix[k]) == episode_of_entry(prefix[m]));
                assert(prev.contains(episode_of_entry(prefix[k])));
            } else {
                assert(entries[k] == entries.last());
            }
        }
    }
}

/// Index filtering law: an episode is in the built index exactly when some
/// entry of the document qualifies and yields it; in particular every
/// episode in the index has a publish time strictly before `now` and the
/// URL of its entry's first audio media reference.
pub proof fn lemma_index_filtering(entries: Seq<EntryView>, now: int)
    ensures
        forall|ep: EpisodeView|
            #[trigger] episode_index(entries, now).contains(ep) ==> ep.when < now && exists|k: int|
                0 <= k < entries.len() && entry_qualifies(#[trigger] entries[k], now) && ep
                    == episode_of_entry(entries[k]),
        forall|k: int|
            0 <= k < entries.len() && entry_qualifies(#[trigger] entries[k], now)
                ==> episode_index(entries, now).contains(episode_of_entry(entries[k])),
{
    lemma_episode_index_membership(entries, now);
    assert forall|ep: EpisodeView| #[trigger] episode_index(entries, now).contains(ep) implies ep.when
        < now && exists|k: int|
        0 <= k < entries.len() && entry_qualifies(#[trigger] entries[k], now) && ep
            == episode_of_entry(entries[k]) by {
        let k = choose|k: int|
            0 <= k < entries.len() && entry_qualifies(#[trigger] entries[k], now) && ep
                == episode_of_entry(entries[k]);
        assert(ep.when == entries[k].published->0);
    }
}

/// Index ordering law: adjacent episodes of a built index never get more
/// recent as the index is walked.
pub proof fn lemma_index_ordering(entries: Seq<EntryView>, now: int)
    ensures
        sorted_desc(episode_index(entries, now)),
        forall|i: int|
            0 <= i && i + 1 < episode_index(entries, now).len() ==> #[trigger] episode_index(
                entries,
                now,
            )[i].when >= episode_index(entries, now)[i + 1].when,
{
    lemma_episode_index_sorted(entries, now);
}

/// Clones an optional string.
pub fn clone_opt_string(s: &Option<String>) -> (r: Option<String>)
    ensures
        r.deep_view() == s.deep_view(),
{
    match s {
        Some(t) => Some(t.clone()),
        None => None,
    }
}

/// The URL of the first downloadable audio media reference, in document
/// order, if any.
pub fn find_audio_url(media: &Vec<Media>) -> (r: Option<String>)
    ensures
        r.deep_view() == first_audio_url(media.deep_view()),
{
    let audio: String = "audio".to_owned();
    let ghost mv = media.deep_view();
    let mut i: usize = 0;
    proof {
        assert(mv.skip(0) =~= mv);
    }
    while i < media.len()
        invariant
            0 <= i <= media.len(),
            mv == media.deep_view(),
            mv.len() == media.len(),
            audio@ == "audio"@,
            first_audio_url(mv) == first_audio_url(mv.skip(i as int)),
        decreases media.len() - i,
    {
        let m = &media[i];
        proof {
            assert(mv[i as int] == m@);
            assert(mv.skip(i as int)[0] == mv[i as int]);
            assert(mv.skip(i as int).drop_first() =~= mv.skip(i as int + 1));
        }
        let mut hit = false;
        match (&m.mime_type, &m.url) {
            (Some(t), Some(_u)) => {
                if *t == audio {
                    hit = true;
                }
            },
            _ => {},
        }
        if hit {
            proof {
                assert(media_is_audio(mv[i as int]));
            }
            match &m.url {
                Some(u) => {
                    return Some(u.clone());
                },
                None => {
                    proof {
                        assert(false);
                    }
                },
            }
        }
        proof {
            assert(!media_is_audio(mv[i as int]));
        }
        i += 1;
    }
    proof {
        assert(mv.skip(i as int).len() == 0);
    }
    None
}

/// Builds a feed's episode index from a parsed document: each entry with a
/// publish timestamp strictly before `now` and a downloadable audio media
/// reference yields one episode, and the episodes are ordered newest first
/// (entries with equal timestamps keep document order).
pub fn build_index(doc: &FeedDocument, now: i64) -> (index: FeedIndex)
    ensures
        index.deep_view() == episode_index(doc@, now as int),
        sorted_desc(index.deep_view()),
{
    let ghost entries = doc@;
    let mut index: Vec<Episode> = Vec::new();
    let mut i: usize = 0;
    proof {
        assert(entries.take(0) =~= Seq::<EntryView>::empty());
    }
    while i < doc.entries.len()
        invariant
            0 <= i <= doc.entries.len(),
            entries == doc@,
            entries.len() == doc.entries.len(),
            index.deep_view() == episode_index(entries.take(i as int), now as int),
            sorted_desc(index.deep_view()),
        decreases doc.entries.len() - i,
    {
        let entry = &doc.entries[i];
        let ghost eview = entries[i as int];
        proof {
            assert(eview == entry@);
        }
        let audio_url = find_audio_url(&entry.media);
        let qualifies = match (entry.published, &audio_url) {
            (Some(when), Some(_)) => when < now,
            _ => false,
        };
        if qualifies {
            proof {
                assert(entry_qualifies(eview, now as int));
            }
            let when = match entry.published {
                Some(w) => w,
                None => 0,
            };
            let url = match audio_url {
                Some(u) => u,
                None => String::new(),
            };
            let ep = Episode {
                meta: EpisodeMeta { title: clone_opt_string(&entry.title) },
                id: entry.id.clone(),
                url,
                when,
            };
            proof {
                assert(ep@ == episode_of_entry(eview));
            }
            let mut j: usize = 0;
            while j < index.len() && index[j].when >= ep.when
                invariant
                    0 <= j <= index.len(),
                    forall|k: int| 0 <= k < j ==> #[trigger] index.deep_view()[k].when >= ep@.when,
                decreases index.len() - j,
            {
                proof {
                    assert(index.deep_view()[j as int].when == index[j as int].when as int);
                }
                j += 1;
            }
            proof {
                if j < index.len() {
                    assert(index.deep_view()[j as int].when < ep@.when);
                }
                lemma_insert_desc_at(index.deep_view(), ep@, j as int);
            }
            let ghost pre = index.deep_view();
            index.insert(j, ep);
            proof {
                assert(index.deep_view() =~= pre.insert(j as int, ep@));
                lemma_insert_desc_sorted(pre, ep@);
            }
        } else {
            proof {
                assert(!entry_qualifies(eview, now as int));
            }
        }
        proof {
            assert(entries.take(i as int + 1).drop_last() =~= entries.take(i as int));
            assert(entries.take(i as int + 1).last() == entries[i as int]);
        }
        i += 1;
    }
    proof {
        assert(entries.take(i as int) =~= entries);
    }
    index
}

} // verus!
