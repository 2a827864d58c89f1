//! Offering books to other devices on the network, and taking theirs.

use vstd::prelude::*;

use crate::persistence::{ascii_alphanumeric, is_ascii_alphanumeric};
use crate::persistence::{entries_view, EntryView, LibraryEntry};
use crate::schema::{opt_str, opt_text};
use crate::text::{chars_of, opens_with, same_text, starts_with, text_of};

verus! {

/// The kind of service under which devices find each other.
pub const SERVICE_TYPE: &'static str = "_weland-share._tcp.local.";

/// The most bytes that are taken from another device for one book.
pub const MAX_DOWNLOAD_BYTES: u64 = 1073741824;

/// A book as a device offers it.
pub struct SharedBook {
    pub title: String,
    pub author: Option<String>,
    pub content_hash: String,
    pub size: u64,
}

/// The mathematical view of a [`SharedBook`].
#[verifier::ext_equal]
pub struct BookOffer {
    pub title: Seq<char>,
    pub author: Option<Seq<char>>,
    pub content_hash: Seq<char>,
    pub size: int,
}

impl View for SharedBook {
    type V = BookOffer;

    open spec fn view(&self) -> BookOffer {
        BookOffer {
            title: self.title@,
            author: opt_text(self.author),
            content_hash: self.content_hash@,
            size: self.size as int,
        }
    }
}

// ---------------------------------------------------------------------------
// Naming this device
// ---------------------------------------------------------------------------

/// A character as it stands in the name of a device.
pub open spec fn label_char(c: char) -> char {
    if is_ascii_alphanumeric(c) || c == '-' {
        c
    } else {
        '-'
    }
}

/// `s` without the hyphens at its front.
pub open spec fn trim_hyphens_start(s: Seq<char>) -> Seq<char>
    decreases s.len(),
{
    if s.len() > 0 && s[0] == '-' {
        trim_hyphens_start(s.drop_first())
    } else {
        s
    }
}

/// `s` without the hyphens at its back.
pub open spec fn trim_hyphens_end(s: Seq<char>) -> Seq<char>
    decreases s.len(),
{
    if s.len() > 0 && s.last() == '-' {
        trim_hyphens_end(s.drop_last())
    } else {
        s
    }
}

/// The name under which a device makes itself known: letters, digits and hyphens, with none of
/// these at either end, or the fallback where nothing is left.
pub open spec fn device_label(raw: Seq<char>, fallback: Seq<char>) -> Seq<char> {
    let t = trim_hyphens_end(trim_hyphens_start(raw.map_values(|c: char| label_char(c))));
    if t.len() == 0 {
        fallback
    } else {
        t
    }
}

/// The name under which a device makes itself known.
pub fn sanitize_label(raw: &str, fallback: &str) -> (r: String)
    ensures
        r@ == device_label(raw@, fallback@),
{
    let v = chars_of(raw);
    let ghost want = raw@.map_values(|c: char| label_char(c));
    let mut clean: Vec<char> = Vec::new();
    let mut i: usize = 0;
    while i < v.len()
        invariant
            v@ == raw@,
            i <= v@.len(),
            want == raw@.map_values(|c: char| label_char(c)),
            clean@ =~= want.take(i as int),
        decreases v@.len() - i,
    {
        let c: char = v[i];
        clean.push(if ascii_alphanumeric(c) || c == '-' { c } else { '-' });
        i += 1;
    }
    assert(clean@ =~= want);
    let mut a: usize = 0;
    assert(want.skip(0) =~= want);
    while a < clean.len() && clean[a] == '-'
        invariant
            a <= clean@.len(),
            clean@ == want,
            trim_hyphens_start(want) == trim_hyphens_start(want.skip(a as int)),
        decreases clean@.len() - a,
    {
        assert(want.skip(a as int).drop_first() =~= want.skip(a + 1));
        a += 1;
    }
    assert(trim_hyphens_start(want) == want.skip(a as int));
    let ghost rest = want.skip(a as int);
    let mut b: usize = clean.len();
    assert(clean@.subrange(a as int, b as int) =~= rest);
    while a < b && clean[b - 1] == '-'
        invariant
            a <= b <= clean@.len(),
            trim_hyphens_end(rest) == trim_hyphens_end(clean@.subrange(a as int, b as int)),
        decreases b - a,
    {
        assert(clean@.subrange(a as int, b as int).drop_last() =~= clean@.subrange(
            a as int,
            b - 1,
        ));
        b -= 1;
    }
    if a == b {
        fallback.to_owned()
    } else {
        text_of(&clean, a, b)
    }
}

// ---------------------------------------------------------------------------
// Starting and stopping
// ---------------------------------------------------------------------------

/// What is to be done about the service that offers books.
#[derive(Clone, Copy, Debug, PartialEq, Eq, Structural)]
pub enum ShareChange {
    Start,
    Stop,
    Keep,
}

/// What is to be done when sharing is turned on or off: a service is started where none runs, or
/// the one that runs is stopped.
pub fn share_toggled(enabled: bool, running: bool) -> (r: ShareChange)
    ensures
        r is Start <==> enabled && !running,
        r is Stop <==> !enabled && running,
        r is Keep <==> enabled == running,
{
    if enabled && !running {
        ShareChange::Start
    } else if !enabled && running {
        ShareChange::Stop
    } else {
        ShareChange::Keep
    }
}

/// What is to be done when the application starts, given what the settings say of sharing, which
/// is off by default.
pub fn share_at_startup(enabled: Option<bool>) -> (r: ShareChange)
    ensures
        r == (if enabled == Some(true) {
            ShareChange::Start
        } else {
            ShareChange::Keep
        }),
{
    let wanted = match enabled {
        Some(e) => e,
        None => false,
    };
    share_toggled(wanted, false)
}

// ---------------------------------------------------------------------------
// Answering requests
// ---------------------------------------------------------------------------

/// What another device asks for.
pub enum ShareRequest {
    /// The list of the books on offer.
    BookList,
    /// The book with this hash.
    Book(String),
    /// Something that is not there.
    Unknown,
}

/// What a request for this path asks for.
pub fn route(url: &str) -> (r: ShareRequest)
    ensures
        match r {
            ShareRequest::BookList => url@ == "/books"@,
            ShareRequest::Book(hash) => url@ != "/books"@ && url@ == "/books/"@ + hash@,
            ShareRequest::Unknown => url@ != "/books"@ && !starts_with(url@, "/books/"@),
        },
{
    if same_text(url, "/books") {
        return ShareRequest::BookList;
    }
    if opens_with(url, "/books/") {
        proof {
            reveal_strlit("/books/");
        }
        let v = chars_of(url);
        let hash = text_of(&v, 7, v.len());
        assert(url@ =~= url@.subrange(0, 7) + url@.subrange(7, url@.len() as int));
        ShareRequest::Book(hash)
    } else {
        ShareRequest::Unknown
    }
}

/// The entry is offered to other devices.
pub open spec fn is_offered(e: EntryView) -> bool {
    e.shared == Some(true) && e.content_hash is Some
}

/// The offers made of the first `n` entries, whose files have these sizes.
pub open spec fn offers(entries: Seq<EntryView>, sizes: Seq<u64>, n: int) -> Seq<BookOffer>
    decreases n,
{
    if n <= 0 {
        Seq::empty()
    } else {
        let before = offers(entries, sizes, n - 1);
        let e = entries[n - 1];
        if is_offered(e) {
            before.push(
                BookOffer {
                    title: e.title,
                    author: e.author,
                    content_hash: e.content_hash->0,
                    size: sizes[n - 1] as int,
                },
            )
        } else {
            before
        }
    }
}

/// The views of offers.
pub open spec fn offers_view(books: Seq<SharedBook>) -> Seq<BookOffer> {
    books.map_values(|b: SharedBook| b@)
}

fn is_shared(e: &LibraryEntry) -> (r: bool)
    ensures
        r == (e@.shared == Some(true)),
{
    match e.shared {
        Some(s) => s,
        None => false,
    }
}

/// The books that this device offers, where the files of the entries have these sizes.
pub fn offered_books(entries: &Vec<LibraryEntry>, sizes: &Vec<u64>) -> (r: Vec<SharedBook>)
    requires
        sizes@.len() == entries@.len(),
    ensures
        offers_view(r@) == offers(entries_view(entries@), sizes@, entries@.len() as int),
{
    let ghost all = entries_view(entries@);
    let mut out: Vec<SharedBook> = Vec::new();
    let mut k: usize = 0;
    assert(offers_view(out@) =~= Seq::<BookOffer>::empty());
    while k < entries.len()
        invariant
            k <= entries@.len(),
            sizes@.len() == entries@.len(),
            all == entries_view(entries@),
            offers_view(out@) == offers(all, sizes@, k as int),
        decreases entries@.len() - k,
    {
        let e = &entries[k];
        assert(all[k as int] == e@);
        if is_shared(e) {
            if let Some(hash) = &e.content_hash {
                let ghost before = out@;
                let book = SharedBook {
                    title: e.title.clone(),
                    author: e.author.clone(),
                    content_hash: hash.clone(),
                    size: sizes[k],
                };
                out.push(book);
                assert(offers_view(out@) =~= offers_view(before).push(book@));
            }
        }
        k += 1;
    }
    out
}

/// The place of the first entry from `k` on that is offered under this hash.
pub open spec fn offered_under(entries: Seq<EntryView>, hash: Seq<char>, k: int) -> Option<int>
    decreases entries.len() - k,
{
    if k < 0 || k >= entries.len() {
        None
    } else if entries[k].shared == Some(true) && entries[k].content_hash == Some(hash) {
        Some(k)
    } else {
        offered_under(entries, hash, k + 1)
    }
}

/// The place of the entry that is offered under this hash.
pub fn find_offered(entries: &Vec<LibraryEntry>, hash: &str) -> (r: Option<usize>)
    ensures
        match r {
            Some(i) => i < entries@.len() && offered_under(entries_view(entries@), hash@, 0) == Some(
                i as int,
            ),
            None => offered_under(entries_view(entries@), hash@, 0) is None,
        },
{
    let ghost all = entries_view(entries@);
    let mut k: usize = 0;
    while k < entries.len()
        invariant
            k <= entries@.len(),
            all == entries_view(entries@),
            offered_under(all, hash@, 0) == offered_under(all, hash@, k as int),
        decreases entries@.len() - k,
    {
        let e = &entries[k];
        assert(all[k as int] == e@);
        if is_shared(e) {
            if let Some(h) = &e.content_hash {
                if same_text(h.as_str(), hash) {
                    return Some(k);
                }
            }
        }
        k += 1;
    }
    None
}

// ---------------------------------------------------------------------------
// Other devices
// ---------------------------------------------------------------------------

/// Another device that offers books.
pub struct PeerInfo {
    pub name: String,
    /// Its address and port.
    pub addr: String,
    /// The name of its service, by which it is told from others.
    pub fullname: String,
}

/// The mathematical view of a [`PeerInfo`].
#[verifier::ext_equal]
pub struct PeerView {
    pub name: Seq<char>,
    pub addr: Seq<char>,
    pub fullname: Seq<char>,
}

impl View for PeerInfo {
    type V = PeerView;

    open spec fn view(&self) -> PeerView {
        PeerView { name: self.name@, addr: self.addr@, fullname: self.fullname@ }
    }
}

/// The views of devices.
pub open spec fn peers_view(peers: Seq<PeerInfo>) -> Seq<PeerView> {
    peers.map_values(|p: PeerInfo| p@)
}

/// The place of the first device from `k` on with this service.
pub open spec fn peer_named(peers: Seq<PeerView>, fullname: Seq<char>, k: int) -> Option<int>
    decreases peers.len() - k,
{
    if k < 0 || k >= peers.len() {
        None
    } else if peers[k].fullname == fullname {
        Some(k)
    } else {
        peer_named(peers, fullname, k + 1)
    }
}

/// The devices after one was found: one that was known is brought up to date, and this device
/// itself is not counted.
pub open spec fn peers_after(peers: Seq<PeerView>, own: Seq<char>, p: PeerView) -> Seq<PeerView> {
    if p.fullname == own {
        peers
    } else {
        match peer_named(peers, p.fullname, 0) {
            Some(i) => peers.update(i, p),
            None => peers.push(p),
        }
    }
}

/// Takes note of a device that was found; `own_fullname` is the service of this device itself.
pub fn peer_resolved(peers: &mut Vec<PeerInfo>, own_fullname: &str, peer: PeerInfo)
    ensures
        peers_view(final(peers)@) == peers_after(peers_view(old(peers)@), own_fullname@, peer@),
{
    if same_text(peer.fullname.as_str(), own_fullname) {
        return ;
    }
    let ghost before = peers@;
    let ghost all = peers_view(peers@);
    let mut k: usize = 0;
    while k < peers.len()
        invariant
            k <= peers@.len(),
            peers@ == before,
            before == old(peers)@,
            all == peers_view(before),
            peer@.fullname != own_fullname@,
            peer_named(all, peer@.fullname, 0) == peer_named(all, peer@.fullname, k as int),
        decreases peers@.len() - k,
    {
        assert(all[k as int] == peers@[k as int]@);
        if same_text(peers[k].fullname.as_str(), peer.fullname.as_str()) {
            peers.set(k, peer);
            assert(peers_view(peers@) =~= all.update(k as int, peer@));
            return ;
        }
        k += 1;
    }
    peers.push(peer);
    assert(peers_view(peers@) =~= all.push(peer@));
}

/// Forgets the devices with a service that is gone.
pub fn peer_removed(peers: &mut Vec<PeerInfo>, fullname: &str)
    ensures
        peers_view(final(peers)@) == peers_view(old(peers)@).filter(
            |p: PeerView| p.fullname != fullname@,
        ),
{
    let ghost all = peers_view(peers@);
    let ghost keep = |p: PeerView| p.fullname != fullname@;
    let mut i: usize = 0;
    let ghost mut done: int = 0;
    proof {
        assert(all.take(0) =~= Seq::empty());
        reveal(Seq::filter);
        assert(all.take(0).filter(keep) =~= Seq::empty());
        assert(all.skip(0) =~= all);
        assert(Seq::<PeerView>::empty() + all =~= all);
    }
    while i < peers.len()
        invariant
            0 <= done <= all.len(),
            keep == (|p: PeerView| p.fullname != fullname@),
            i <= peers@.len(),
            peers_view(peers@) == all.take(done).filter(keep) + all.skip(done),
            i == all.take(done).filter(keep).len(),
        decreases peers@.len() - i,
    {
        let ghost before = peers@;
        let ghost kept = all.take(done).filter(keep);
        assert(peers_view(before)[i as int] == all.skip(done)[0]);
        assert(peers_view(before)[i as int] == before[i as int]@);
        assert(all.skip(done)[0] == all[done]);
        proof {
            all.take(done).lemma_filter_push(all[done], keep);
            assert(all.take(done).push(all[done]) =~= all.take(done + 1));
        }
        if same_text(peers[i].fullname.as_str(), fullname) {
            peers.remove(i);
            assert(peers_view(peers@) =~= peers_view(before).remove(i as int));
            assert(peers_view(before).remove(i as int) =~= kept + all.skip(done + 1));
        } else {
            assert(kept + all.skip(done) =~= kept.push(all[done]) + all.skip(done + 1));
            i += 1;
        }
        proof {
            done = done + 1;
        }
    }
    proof {
        assert(all.skip(done).len() == 0);
        assert(all.take(done) =~= all);
        assert(all.filter(keep) + all.skip(done) =~= all.filter(keep));
    }
}

// ---------------------------------------------------------------------------
// Taking a book
// ---------------------------------------------------------------------------

/// The library holds a book with this hash.
pub open spec fn holds_hash(entries: Seq<EntryView>, hash: Seq<char>) -> bool {
    exists|i: int| 0 <= i < entries.len() && (#[trigger] entries[i]).content_hash == Some(hash)
}

/// Whether the library holds a book with this hash.
pub fn already_imported(entries: &Vec<LibraryEntry>, hash: &str) -> (r: bool)
    ensures
        r == holds_hash(entries_view(entries@), hash@),
{
    let ghost all = entries_view(entries@);
    let mut k: usize = 0;
    while k < entries.len()
        invariant
            k <= entries@.len(),
            all == entries_view(entries@),
            forall|j: int| 0 <= j < k ==> (#[trigger] all[j]).content_hash != Some(hash@),
        decreases entries@.len() - k,
    {
        assert(all[k as int] == entries@[k as int]@);
        if let Some(h) = &entries[k].content_hash {
            if same_text(h.as_str(), hash) {
                return true;
            }
        }
        k += 1;
    }
    false
}

/// The title under which a received book is kept, given the title and the hash in its own
/// metadata; `None` where it is not the book that was asked for.
pub fn accept_received(
    book: &SharedBook,
    title: Option<&str>,
    hash: Option<&str>,
) -> (r: Option<String>)
    ensures
        match r {
            Some(t) => opt_str(hash) == Some(book@.content_hash) && t@ == (match opt_str(title) {
                Some(own) => own,
                None => book@.title,
            }),
            None => opt_str(hash) != Some(book@.content_hash),
        },
{
    match hash {
        Some(h) => if same_text(h, book.content_hash.as_str()) {
            Some(
                match title {
                    Some(t) => t.to_owned(),
                    None => book.title.clone(),
                },
            )
        } else {
            None
        },
        None => None,
    }
}

/// The address of the list of books that a device at `addr` offers.
pub fn books_url(addr: &str) -> (r: String)
    ensures
        r@ == "http://"@ + addr@ + "/books"@,
{
    let mut out = "http://".to_owned();
    out.append(addr);
    out.append("/books");
    out
}

/// The address of a book that a device at `addr` offers.
pub fn book_url(addr: &str, hash: &str) -> (r: String)
    ensures
        r@ == "http://"@ + addr@ + "/books"@ + "/"@ + hash@,
{
    let mut out = books_url(addr);
    out.append("/");
    out.append(hash);
    out
}

/// The name of the file in which a book is kept while it is received.
pub fn incoming_file_name(hash: &str) -> (r: String)
    ensures
        r@ == ".incoming-"@ + hash@ + ".wld"@,
{
    let mut out = ".incoming-".to_owned();
    out.append(hash);
    out.append(".wld");
    out
}

// ---------------------------------------------------------------------------
// Laws
// ---------------------------------------------------------------------------

/// Only books that were marked as shared are ever offered, each under its own hash.
pub proof fn only_shared_books_are_offered(entries: Seq<EntryView>, sizes: Seq<u64>, n: int, k: int)
    requires
        0 <= n <= entries.len(),
        0 <= k < offers(entries, sizes, n).len(),
    ensures
        exists|i: int|
            0 <= i < n && (#[trigger] entries[i]).shared == Some(true) && entries[i].content_hash
                == Some(offers(entries, sizes, n)[k].content_hash) && entries[i].title == offers(
                entries,
                sizes,
                n,
            )[k].title,
    decreases n,
{
    if n > 0 {
        let before = offers(entries, sizes, n - 1);
        if k < before.len() {
            only_shared_books_are_offered(entries, sizes, n - 1, k);
            let i = choose|i: int|
                0 <= i < n - 1 && (#[trigger] entries[i]).shared == Some(true)
                    && entries[i].content_hash == Some(before[k].content_hash) && entries[i].title
                    == before[k].title;
            assert(entries[i].shared == Some(true));
        } else {
            assert(entries[n - 1].shared == Some(true));
        }
    }
}

/// A book that is not marked as shared is not handed out, whatever hash is asked for.
pub proof fn only_shared_books_are_handed_out(entries: Seq<EntryView>, hash: Seq<char>, k: int)
    requires
        0 <= k,
    ensures
        offered_under(entries, hash, k) matches Some(i) ==> 0 <= i < entries.len()
            && entries[i].shared == Some(true) && entries[i].content_hash == Some(hash),
    decreases entries.len() - k,
{
    if k < entries.len() && !(entries[k].shared == Some(true) && entries[k].content_hash == Some(
        hash,
    )) {
        only_shared_books_are_handed_out(entries, hash, k + 1);
    }
}

} // verus!
