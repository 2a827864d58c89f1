//! What is offered to other devices, what they are called, and what is shown of theirs.

use vstd::prelude::*;

use super::children::present;
use crate::annotation_list::{label_of, LibraryAnnotationView};
use crate::library_page::matching_offers;
use crate::persistence::{is_ascii_alphanumeric, EntryView};
use crate::reader_page::{row_matches, rows_among};
use crate::sharing::{
    device_label, label_char, offered_under, offers, peer_named, peers_after, trim_hyphens_end,
    trim_hyphens_start, BookOffer, PeerView,
};
use crate::text::{contains, lowercase};

verus! {

// ---------------------------------------------------------------------------
// Offers
// ---------------------------------------------------------------------------

/// The offer of a book that is shared and whose bytes are known, with its size.
pub open spec fn offer_of(e: EntryView, size: u64) -> Option<BookOffer> {
    if e.shared == Some(true) && e.content_hash is Some {
        Some(BookOffer { title: e.title, author: e.author, content_hash: e.content_hash->0, size: size as int })
    } else {
        None
    }
}

/// Every book that is shared and whose bytes are known is offered, in order, and no other.
pub proof fn all_shared_books_are_offered(entries: Seq<EntryView>, sizes: Seq<u64>, n: int)
    requires
        0 <= n <= entries.len(),
    ensures
        offers(entries, sizes, n) == present(Seq::new(n as nat, |k: int| offer_of(entries[k], sizes[k]))),
    decreases n,
{
    reveal(Seq::filter);
    let all = Seq::new(n as nat, |k: int| offer_of(entries[k], sizes[k]));
    if n > 0 {
        all_shared_books_are_offered(entries, sizes, n - 1);
        let before = Seq::new((n - 1) as nat, |k: int| offer_of(entries[k], sizes[k]));
        assert(all.drop_last() =~= before);
        let x = offer_of(entries[n - 1], sizes[n - 1]);
        assert(all.last() == x);
        if x is Some {
            assert(present(all) =~= present(before).push(x->0));
        }
    } else {
        assert(present(all) =~= Seq::<BookOffer>::empty());
    }
}

/// A book is handed out if it is shared and has the hash that was asked for: the first such.
pub proof fn shared_books_are_handed_out(entries: Seq<EntryView>, hash: Seq<char>, k: int)
    ensures
        ({
            let fits = |j: int| entries[j].shared == Some(true) && entries[j].content_hash == Some(hash);
            &&& 0 <= k < entries.len() && fits(k) && (forall|j: int| 0 <= j < k ==> !#[trigger] fits(j))
                ==> offered_under(entries, hash, 0) == Some(k)
            &&& (forall|j: int| 0 <= j < entries.len() ==> !#[trigger] fits(j)) ==> offered_under(
                entries,
                hash,
                0,
            ) is None
        }),
{
    let fits = |j: int| entries[j].shared == Some(true) && entries[j].content_hash == Some(hash);
    lemma_offered(entries, hash, 0);
    match offered_under(entries, hash, 0) {
        Some(i) => {
            assert(fits(i));
            if 0 <= k < entries.len() && fits(k) && (forall|j: int| 0 <= j < k ==> !#[trigger] fits(j)) {
                assert(entries[k].shared == Some(true));
                assert(i == k);
            }
        },
        None => {
            if 0 <= k < entries.len() {
                assert(entries[k].shared == Some(true) ==> entries[k].content_hash != Some(hash));
            }
        },
    }
}

proof fn lemma_offered(entries: Seq<EntryView>, hash: Seq<char>, from: int)
    requires
        0 <= from,
    ensures
        match offered_under(entries, hash, from) {
            Some(i) => from <= i < entries.len() && entries[i].shared == Some(true) && entries[i].content_hash == Some(
                hash,
            ) && forall|j: int|
                from <= j < i ==> !((#[trigger] entries[j]).shared == Some(true) && entries[j].content_hash == Some(
                    hash,
                )),
            None => forall|j: int|
                from <= j < entries.len() ==> !((#[trigger] entries[j]).shared == Some(true)
                    && entries[j].content_hash == Some(hash)),
        },
    decreases entries.len() - from,
{
    if from < entries.len() {
        lemma_offered(entries, hash, from + 1);
    }
}

/// The offers that are shown of another device are those with what was asked for in the title or
/// the author, in order.
pub proof fn matching_offers_are_shown(books: Seq<BookOffer>, text: Seq<char>, k: int, n: int)
    requires
        0 <= k < n <= books.len() <= usize::MAX,
    ensures
        ({
            let b = books[k];
            let fits = lowercase(text).len() == 0 || contains(lowercase(b.title), lowercase(text)) || (b.author is Some
                && contains(lowercase(b.author->0), lowercase(text)));
            let at = matching_offers(books, text, k).len() as int;
            &&& fits ==> at < matching_offers(books, text, n).len() && matching_offers(books, text, n)[at] == k
                && matching_offers(books, text, k + 1).len() == at + 1
            &&& !fits ==> matching_offers(books, text, k + 1).len() == at
            &&& matching_offers(books, text, k + 1).len() <= matching_offers(books, text, n).len()
            &&& matching_offers(books, text, 0).len() == 0
        }),
    decreases n,
{
    if k < n - 1 {
        matching_offers_are_shown(books, text, k, n - 1);
    }
}

// ---------------------------------------------------------------------------
// Devices
// ---------------------------------------------------------------------------

proof fn lemma_peer(peers: Seq<PeerView>, name: Seq<char>, k: int, from: int)
    requires
        0 <= from,
    ensures
        from <= k < peers.len() && peers[k].fullname == name && (forall|j: int|
            from <= j < k ==> (#[trigger] peers[j]).fullname != name) ==> peer_named(peers, name, from) == Some(k),
        (forall|j: int| from <= j < peers.len() ==> (#[trigger] peers[j]).fullname != name) ==> peer_named(
            peers,
            name,
            from,
        ) is None,
    decreases peers.len() - from,
{
    if from < peers.len() {
        lemma_peer(peers, name, k, from + 1);
    }
}

/// A device that is found takes the place of what was known of it, or comes behind the others; this
/// device itself is not listed.
pub proof fn found_devices_are_listed_once(peers: Seq<PeerView>, own: Seq<char>, p: PeerView, k: int)
    ensures
        p.fullname == own ==> peers_after(peers, own, p) == peers,
        p.fullname != own && 0 <= k < peers.len() && peers[k].fullname == p.fullname && (forall|j: int|
            0 <= j < k ==> (#[trigger] peers[j]).fullname != p.fullname) ==> peers_after(peers, own, p)
            == peers.take(k).push(p) + peers.skip(k + 1),
        p.fullname != own && (forall|j: int| 0 <= j < peers.len() ==> (#[trigger] peers[j]).fullname != p.fullname)
            ==> peers_after(peers, own, p) == peers.push(p),
{
    lemma_peer(peers, p.fullname, k, 0);
    if 0 <= k < peers.len() {
        assert(peers.update(k, p) =~= peers.take(k).push(p) + peers.skip(k + 1));
    }
}

/// A device is called by its name with a hyphen for every character but ASCII letters, digits and
/// hyphens, without hyphens at the ends; by the fallback if nothing is left.
pub proof fn devices_are_called_by_their_names(raw: Seq<char>, fallback: Seq<char>, a: int, b: int)
    requires
        0 <= a <= b <= raw.len(),
        forall|i: int| 0 <= i < a || b <= i < raw.len() ==> !is_ascii_alphanumeric(#[trigger] raw[i]),
        a < b ==> is_ascii_alphanumeric(raw[a]) && is_ascii_alphanumeric(raw[b - 1]),
    ensures
        a == b ==> device_label(raw, fallback) == fallback,
        a < b ==> device_label(raw, fallback) == Seq::new(
            (b - a) as nat,
            |i: int| if is_ascii_alphanumeric(raw[a + i]) { raw[a + i] } else { '-' },
        ),
{
    let signs = raw.map_values(|c: char| label_char(c));
    let shown = Seq::new((b - a) as nat, |i: int| if is_ascii_alphanumeric(raw[a + i]) { raw[a + i] } else { '-' });
    if a < b {
        assert forall|i: int| 0 <= i < a implies #[trigger] signs[i] == '-' by {
            assert(!is_ascii_alphanumeric(raw[i]));
        }
        assert(signs[a] == raw[a]);
        lemma_trim_front(signs, a);
        let rest = signs.skip(a);
        assert forall|i: int| b - a <= i < rest.len() implies #[trigger] rest[i] == '-' by {
            assert(rest[i] == signs[a + i]);
            assert(!is_ascii_alphanumeric(raw[a + i]));
        }
        assert(rest[b - a - 1] == raw[b - 1]);
        lemma_trim_back(rest, b - a);
        assert(rest.take(b - a) =~= shown);
    } else {
        assert forall|i: int| 0 <= i < signs.len() implies #[trigger] signs[i] == '-' by {
            assert(!is_ascii_alphanumeric(raw[i]));
        }
        lemma_trim_front(signs, signs.len() as int);
        assert(signs.skip(signs.len() as int).len() == 0);
    }
}

proof fn lemma_trim_front(s: Seq<char>, a: int)
    requires
        0 <= a <= s.len(),
        forall|i: int| 0 <= i < a ==> #[trigger] s[i] == '-',
        a < s.len() ==> s[a] != '-',
    ensures
        trim_hyphens_start(s) == s.skip(a),
    decreases a,
{
    if a > 0 {
        let t = s.drop_first();
        assert(s[0] == '-');
        assert forall|i: int| 0 <= i < a - 1 implies #[trigger] t[i] == '-' by {
            assert(t[i] == s[i + 1]);
        }
        lemma_trim_front(t, a - 1);
        assert(t.skip(a - 1) =~= s.skip(a));
    } else {
        assert(s.skip(0) =~= s);
    }
}

proof fn lemma_trim_back(s: Seq<char>, b: int)
    requires
        0 <= b <= s.len(),
        forall|i: int| b <= i < s.len() ==> #[trigger] s[i] == '-',
        b > 0 ==> s[b - 1] != '-',
    ensures
        trim_hyphens_end(s) == s.take(b),
    decreases s.len(),
{
    if b < s.len() {
        let t = s.drop_last();
        assert(s[s.len() - 1] == '-');
        assert forall|i: int| b <= i < t.len() implies #[trigger] t[i] == '-' by {
            assert(t[i] == s[i]);
        }
        lemma_trim_back(t, b);
        assert(t.take(b) =~= s.take(b));
    } else {
        assert(s.take(b) =~= s);
    }
}

// ---------------------------------------------------------------------------
// Annotations of the library
// ---------------------------------------------------------------------------

/// Every annotation that matches gets a row, in order: its book, its kind, and its comment or else
/// the words it is on.
pub proof fn matching_annotations_get_rows(entries: Seq<LibraryAnnotationView>, text: Seq<char>, k: int, n: int)
    requires
        0 <= k < n <= entries.len(),
    ensures
        ({
            let e = entries[k];
            let at = rows_among(entries, text, k).len() as int;
            let rows = rows_among(entries, text, n);
            &&& row_matches(e, text) ==> at < rows.len() && rows[at].book_title == e.book_title && rows[at].book_path
                == e.book_path && rows[at].kind == label_of(e.annotation.annotation_type) && rows_among(
                entries,
                text,
                k + 1,
            ).len() == at + 1
            &&& row_matches(e, text) && e.annotation.comment is Some ==> rows[at].snippet == e.annotation.comment->0
            &&& row_matches(e, text) && e.annotation.comment is None && e.annotation.selected_text is Some
                ==> rows[at].snippet == e.annotation.selected_text->0
            &&& !row_matches(e, text) ==> rows_among(entries, text, k + 1).len() == at
            &&& rows_among(entries, text, k + 1).len() <= rows.len()
            &&& rows_among(entries, text, 0).len() == 0
        }),
    decreases n,
{
    if k < n - 1 {
        matching_annotations_get_rows(entries, text, k, n - 1);
    }
}

} // verus!
