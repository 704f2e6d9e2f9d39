//! GDKP ledgers from Gargul's SavedVariables (`GargulDB["GDKP"]["Ledger"]`):
//! the sessions, their auctions, and the players' cuts of the pot.

use vstd::prelude::*;
use crate::value::{
    Value, Model, entries_model, field, field_of, text_of, int_of, amount_of, or_text, or_zero,
    model_of, str_opt, text_field, text_field_or_empty, int_field, text_or_empty,
};
use crate::lua_parser::{
    read_saved_variable, parse_saved_variable_checked, Scan, fault_message, parse_error_text,
};
use crate::text::{
    find_from, lemma_find_from, find_chars, chars_of, string_of, push_str, push_i64_decimal,
    int_decimal, uppercase, to_uppercase, ascii_upper, str_eq, str_less, tail_chars, occurs_at,
};
use crate::sorting::{Ranked, rank_fn, views, stably_sorted, sort_by_rank};

verus! {

// ------------------------------------------------------------------
// Records
// ------------------------------------------------------------------

/// A number as Gargul stored it: an integer, or the decimal text of one that
/// is not an integer.
#[derive(Debug)]
pub enum Amount {
    Int(i64),
    Decimal(String),
}

impl Amount {
    /// The number as read (`Model::Int` or `Model::Float`).
    pub open spec fn model(&self) -> Model {
        match self {
            Amount::Int(i) => Model::Int(*i),
            Amount::Decimal(t) => Model::Float(t@),
        }
    }
}

/// One auction of a session.
#[derive(Debug)]
pub struct GdkpAuction {
    pub id: String,
    pub item_id: i64,
    pub item_link: Option<String>,
    pub item_name: String,
    pub price: i64,
    pub winner_name: String,
    pub winner_realm: String,
    pub winner_class: String,
    pub created_at: i64,
    pub deleted_at: Option<i64>,
}

/// The content of a [`GdkpAuction`].
pub struct AuctionView {
    pub id: Seq<char>,
    pub item_id: i64,
    pub item_link: Option<Seq<char>>,
    pub item_name: Seq<char>,
    pub price: i64,
    pub winner_name: Seq<char>,
    pub winner_realm: Seq<char>,
    pub winner_class: Seq<char>,
    pub created_at: i64,
    pub deleted_at: Option<i64>,
}

/// A player's cut of a session's pot.
#[derive(Debug)]
pub struct GdkpCut {
    pub player_name: String,
    pub player_realm: String,
    pub player_class: String,
    pub amount: Amount,
}

/// The content of a [`GdkpCut`].
pub struct CutView {
    pub player_name: Seq<char>,
    pub player_realm: Seq<char>,
    pub player_class: Seq<char>,
    pub amount: Model,
}

/// One GDKP session.
#[derive(Debug)]
pub struct GdkpSession {
    pub id: String,
    pub title: String,
    pub created_at: i64,
    pub locked_at: Option<i64>,
    pub management_cut: Option<Amount>,
    pub total_pot: i64,
    pub auctions: Vec<GdkpAuction>,
    pub cuts: Vec<GdkpCut>,
}

/// The content of a [`GdkpSession`].
pub struct SessionView {
    pub id: Seq<char>,
    pub title: Seq<char>,
    pub created_at: i64,
    pub locked_at: Option<i64>,
    pub management_cut: Option<Model>,
    pub total_pot: i64,
    pub auctions: Seq<AuctionView>,
    pub cuts: Seq<CutView>,
}

/// The sessions sent to the website.
#[derive(Debug)]
pub struct GargulSyncPayload {
    pub sessions: Vec<GdkpSession>,
}

pub open spec fn text_opt(t: Option<String>) -> Option<Seq<char>> {
    match t {
        Some(s) => Some(s@),
        None => None,
    }
}

pub open spec fn amount_opt(a: Option<Amount>) -> Option<Model> {
    match a {
        Some(x) => Some(x.model()),
        None => None,
    }
}

impl View for GdkpAuction {
    type V = AuctionView;

    open spec fn view(&self) -> AuctionView {
        AuctionView {
            id: self.id@,
            item_id: self.item_id,
            item_link: text_opt(self.item_link),
            item_name: self.item_name@,
            price: self.price,
            winner_name: self.winner_name@,
            winner_realm: self.winner_realm@,
            winner_class: self.winner_class@,
            created_at: self.created_at,
            deleted_at: self.deleted_at,
        }
    }
}

impl View for GdkpCut {
    type V = CutView;

    open spec fn view(&self) -> CutView {
        CutView {
            player_name: self.player_name@,
            player_realm: self.player_realm@,
            player_class: self.player_class@,
            amount: self.amount.model(),
        }
    }
}

impl View for GdkpSession {
    type V = SessionView;

    open spec fn view(&self) -> SessionView {
        SessionView {
            id: self.id@,
            title: self.title@,
            created_at: self.created_at,
            locked_at: self.locked_at,
            management_cut: amount_opt(self.management_cut),
            total_pot: self.total_pot,
            auctions: views(self.auctions@),
            cuts: views(self.cuts@),
        }
    }
}

impl View for GargulSyncPayload {
    type V = Seq<SessionView>;

    open spec fn view(&self) -> Seq<SessionView> {
        views(self.sessions@)
    }
}

/// Sessions and auctions are ordered by creation time.
impl Ranked for GdkpSession {
    open spec fn rank(v: SessionView) -> (int, Seq<char>) {
        (v.created_at as int, Seq::empty())
    }

    fn ranks_before(&self, other: &Self) -> (r: bool) {
        self.created_at < other.created_at
    }
}

impl Ranked for GdkpAuction {
    open spec fn rank(v: AuctionView) -> (int, Seq<char>) {
        (v.created_at as int, Seq::empty())
    }

    fn ranks_before(&self, other: &Self) -> (r: bool) {
        self.created_at < other.created_at
    }
}

/// Cuts are ordered by player name.
impl Ranked for GdkpCut {
    open spec fn rank(v: CutView) -> (int, Seq<char>) {
        (0, v.player_name)
    }

    fn ranks_before(&self, other: &Self) -> (r: bool) {
        str_less(self.player_name.as_str(), other.player_name.as_str())
    }
}

// ------------------------------------------------------------------
// Names
// ------------------------------------------------------------------

/// The name between `|h[` and the next `]|h` of an item link, or `Item #<id>`.
pub open spec fn item_name_of(link: Option<Seq<char>>, item_id: i64) -> Seq<char> {
    let fallback = "Item #"@ + int_decimal(item_id as int);
    match link {
        Some(l) => match find_from(l, "|h["@, 0) {
            Some(start) => match find_from(l.skip(start + 3), "]|h"@, 0) {
                Some(end) => l.subrange(start + 3, start + 3 + end),
                None => fallback,
            },
            None => fallback,
        },
        None => fallback,
    }
}

/// `name-realm` split at its first `-`; without one, all of it is the name.
pub open spec fn split_guid(guid: Seq<char>) -> (Seq<char>, Seq<char>) {
    match find_from(guid, seq!['-'], 0) {
        Some(i) => (guid.take(i), guid.skip(i + 1)),
        None => (guid, Seq::empty()),
    }
}

/// The text with its first character in upper case.
pub open spec fn capitalized(s: Seq<char>) -> Seq<char> {
    if s.len() == 0 {
        s
    } else {
        uppercase(s[0]) + s.skip(1)
    }
}

// ------------------------------------------------------------------
// What a ledger reads as
// ------------------------------------------------------------------

/// An auction's record, under its key `id`.
pub open spec fn auction_of(id: Seq<char>, m: Model) -> AuctionView {
    let item_id = or_zero(int_of(field(m, "itemID"@)));
    let link = text_of(field(m, "itemLink"@));
    let winner = field(m, "Winner"@);
    AuctionView {
        id: or_text(text_of(field(m, "ID"@)), id),
        item_id: item_id,
        item_link: link,
        item_name: item_name_of(link, item_id),
        price: or_zero(int_of(field(m, "price"@))),
        winner_name: or_text(text_of(field_of(winner, "name"@)), Seq::empty()),
        winner_realm: or_text(text_of(field_of(winner, "realm"@)), Seq::empty()),
        winner_class: or_text(text_of(field_of(winner, "class"@)), Seq::empty()),
        created_at: or_zero(int_of(field(m, "createdAt"@))),
        deleted_at: int_of(field(m, "deletedAt"@)),
    }
}

/// The auctions of a session's `Auctions` table, in the table's order.
pub open spec fn auctions_listed(a: Option<Model>) -> Seq<AuctionView> {
    match a {
        Some(Model::Object(o)) => o.map_values(|e: (Seq<char>, Model)| auction_of(e.0, e.1)),
        _ => Seq::empty(),
    }
}

/// The pot: the sum of the prices of the auctions that are not deleted and
/// have a positive price (in `i64`, wrapping as release builds do).
pub open spec fn pot_of(s: Seq<AuctionView>) -> i64
    decreases s.len(),
{
    if s.len() == 0 {
        0
    } else {
        let rest = pot_of(s.drop_last());
        let a = s.last();
        if a.deleted_at is None && a.price > 0 {
            rest.wrapping_add(a.price)
        } else {
            rest
        }
    }
}

/// The pot adds up the auctions one by one: with no auctions it is 0; an
/// auction that is not deleted and has a positive price adds its price (in
/// `i64`, wrapping; exactly its price where the sum fits); any other auction
/// leaves it as it was.
pub proof fn lemma_pot_adds_prices(s: Seq<AuctionView>, a: AuctionView)
    ensures
        pot_of(Seq::<AuctionView>::empty()) == 0,
        a.deleted_at is None && a.price > 0 ==> pot_of(s.push(a)) == pot_of(s).wrapping_add(a.price),
        a.deleted_at is None && a.price > 0 && pot_of(s) + a.price <= i64::MAX ==> pot_of(s.push(a))
            == pot_of(s) + a.price,
        !(a.deleted_at is None && a.price > 0) ==> pot_of(s.push(a)) == pot_of(s),
{
    assert(s.push(a).drop_last() =~= s);
    assert(s.push(a).last() == a);
}

/// An auction's winner is read from its `Winner` record: the name, realm and
/// class are the texts under `name`, `realm` and `class` there, each on its
/// own (empty where that entry is missing or not text).
pub proof fn lemma_auction_winner(id: Seq<char>, m: Model, w: Model)
    requires
        field(m, "Winner"@) == Some(w),
    ensures
        field(w, "realm"@) matches Some(Model::Str(x)) ==> auction_of(id, m).winner_realm == x,
        field(w, "name"@) matches Some(Model::Str(x)) ==> auction_of(id, m).winner_name == x,
        field(w, "class"@) matches Some(Model::Str(x)) ==> auction_of(id, m).winner_class == x,
        !(field(w, "realm"@) matches Some(Model::Str(_))) ==> auction_of(id, m).winner_realm
            == Seq::<char>::empty(),
        !(field(w, "name"@) matches Some(Model::Str(_))) ==> auction_of(id, m).winner_name
            == Seq::<char>::empty(),
{
}

/// A class noted for a player, when both are known.
pub open spec fn note(guid: Seq<char>, class: Seq<char>) -> Seq<(Seq<char>, Seq<char>)> {
    if guid.len() > 0 && class.len() > 0 {
        seq![(guid, class)]
    } else {
        Seq::empty()
    }
}

/// The class noted by one bid: its `bidder` and its `Bidder`'s class.
pub open spec fn bid_note(bid: Model) -> Seq<(Seq<char>, Seq<char>)> {
    match field(bid, "Bidder"@) {
        Some(bidder) => note(
            or_text(text_of(field(bid, "bidder"@)), Seq::empty()),
            or_text(text_of(field(bidder, "class"@)), Seq::empty()),
        ),
        None => Seq::empty(),
    }
}

pub open spec fn bid_notes(bids: Seq<(Seq<char>, Model)>) -> Seq<(Seq<char>, Seq<char>)>
    decreases bids.len(),
{
    if bids.len() == 0 {
        Seq::empty()
    } else {
        bid_notes(bids.drop_last()) + bid_note(bids.last().1)
    }
}

/// The class noted by an auction's winner.
pub open spec fn winner_note(a: Model) -> Seq<(Seq<char>, Seq<char>)> {
    match field(a, "Winner"@) {
        Some(w) => note(
            or_text(text_of(field(w, "guid"@)), Seq::empty()),
            or_text(text_of(field(w, "class"@)), Seq::empty()),
        ),
        None => Seq::empty(),
    }
}

/// The classes noted by an auction: its winner's, then its bidders' in order.
pub open spec fn auction_notes(a: Model) -> Seq<(Seq<char>, Seq<char>)> {
    winner_note(a) + match field(a, "Bids"@) {
        Some(Model::Object(b)) => bid_notes(b),
        _ => Seq::empty(),
    }
}

pub open spec fn class_notes(auctions: Seq<(Seq<char>, Model)>) -> Seq<(Seq<char>, Seq<char>)>
    decreases auctions.len(),
{
    if auctions.len() == 0 {
        Seq::empty()
    } else {
        class_notes(auctions.drop_last()) + auction_notes(auctions.last().1)
    }
}

/// Every class noted in a session's auctions, in order.
pub open spec fn class_log(a: Option<Model>) -> Seq<(Seq<char>, Seq<char>)> {
    match a {
        Some(Model::Object(o)) => class_notes(o),
        _ => Seq::empty(),
    }
}

/// The class last noted for a player (empty when none was).
pub open spec fn last_class(log: Seq<(Seq<char>, Seq<char>)>, guid: Seq<char>) -> Seq<char>
    decreases log.len(),
{
    if log.len() == 0 {
        Seq::empty()
    } else if log.last().0 == guid {
        log.last().1
    } else {
        last_class(log.drop_last(), guid)
    }
}

/// A cut, from an entry `guid = amount` of `Pot.Cuts`, when the amount is a number.
pub open spec fn cut_of(e: (Seq<char>, Model), log: Seq<(Seq<char>, Seq<char>)>) -> Option<CutView> {
    match amount_of(Some(e.1)) {
        Some(a) => Some(
            CutView {
                player_name: capitalized(split_guid(e.0).0),
                player_realm: capitalized(split_guid(e.0).1),
                player_class: last_class(log, e.0),
                amount: a,
            },
        ),
        None => None,
    }
}

pub open spec fn cut_fn(log: Seq<(Seq<char>, Seq<char>)>) -> spec_fn((Seq<char>, Model)) -> Option<
    CutView,
> {
    |e: (Seq<char>, Model)| cut_of(e, log)
}

/// The cuts of a session's `Pot.Cuts` table, in the table's order.
pub open spec fn cuts_listed(pot: Option<Model>, auctions: Option<Model>) -> Seq<CutView> {
    match field_of(pot, "Cuts"@) {
        Some(Model::Object(o)) => o.filter_map(cut_fn(class_log(auctions))),
        _ => Seq::empty(),
    }
}

/// A session record marked deleted.
pub open spec fn session_deleted(m: Model) -> bool {
    int_of(field(m, "deletedAt"@)) is Some
}

/// `v` is what the session record `m`, under its key `id`, reads as: auctions
/// ordered by creation time and cuts by player name, ties in table order.
pub open spec fn session_matches(v: SessionView, id: Seq<char>, m: Model) -> bool {
    &&& v.id == or_text(text_of(field(m, "ID"@)), id)
    &&& v.title == or_text(text_of(field(m, "title"@)), "Untitled Session"@)
    &&& v.created_at == or_zero(int_of(field(m, "createdAt"@)))
    &&& v.locked_at == int_of(field(m, "lockedAt"@))
    &&& v.management_cut == amount_of(field(m, "managementCut"@))
    &&& stably_sorted(v.auctions, auctions_listed(field(m, "Auctions"@)), rank_fn::<GdkpAuction>())
    &&& v.total_pot == pot_of(v.auctions)
    &&& stably_sorted(
        v.cuts,
        cuts_listed(field(m, "Pot"@), field(m, "Auctions"@)),
        rank_fn::<GdkpCut>(),
    )
}

/// The ledger of a `GargulDB` value (empty when it has none).
pub open spec fn ledger_of(db: Model) -> Seq<(Seq<char>, Model)> {
    match field_of(field(db, "GDKP"@), "Ledger"@) {
        Some(Model::Object(o)) => o,
        _ => Seq::empty(),
    }
}

/// The ledger's sessions that are not deleted, in the ledger's order.
pub open spec fn kept_sessions(ledger: Seq<(Seq<char>, Model)>) -> Seq<(Seq<char>, Model)> {
    ledger.filter(|e: (Seq<char>, Model)| !session_deleted(e.1))
}

/// `u` lists what the kept sessions of `ledger` read as, in order.
pub open spec fn sessions_listed(u: Seq<SessionView>, ledger: Seq<(Seq<char>, Model)>) -> bool {
    &&& u.len() == kept_sessions(ledger).len()
    &&& forall|i: int|
        0 <= i < u.len() ==> session_matches(
            #[trigger] u[i],
            kept_sessions(ledger)[i].0,
            kept_sessions(ledger)[i].1,
        )
}

/// `p` is what the `GargulDB` value `db` reads as: its kept sessions ordered
/// by creation time, ties in ledger order.
pub open spec fn payload_matches(p: Seq<SessionView>, db: Model) -> bool {
    exists|u: Seq<SessionView>|
        #[trigger] sessions_listed(u, ledger_of(db)) && stably_sorted(
            p,
            u,
            rank_fn::<GdkpSession>(),
        )
}

} // verus!

verus! {

// ------------------------------------------------------------------
// Small pieces
// ------------------------------------------------------------------

/// Splits `name-realm` at its first `-` (all of it is the name when there is none).
pub fn split_player_guid(guid: &str) -> (r: (String, String))
    ensures
        (r.0@, r.1@) == split_guid(guid@),
{
    let cs = chars_of(guid);
    let dash: Vec<char> = vec!['-'];
    assert(dash@ =~= seq!['-']);
    match find_chars(&cs, &dash) {
        Some(i) => {
            proof {
                lemma_find_from(cs@, dash@, 0);
            }
            let name = string_of(&cs, 0, i);
            let realm = string_of(&cs, i + 1, cs.len());
            assert(name@ =~= guid@.take(i as int));
            assert(realm@ =~= guid@.skip(i + 1));
            (name, realm)
        },
        None => (guid.to_owned(), String::new()),
    }
}

/// The text with its first character in upper case: `"arthas"` gives `"Arthas"`.
pub fn capitalize_first(s: &str) -> (r: String)
    ensures
        r@ == capitalized(s@),
        s@.len() > 0 && (s@[0] as u32) < 128 ==> r@ == seq![ascii_upper(s@[0])] + s@.skip(1),
{
    let cs = chars_of(s);
    if cs.len() == 0 {
        return String::new();
    }
    let mut r = to_uppercase(cs[0]);
    let rest = string_of(&cs, 1, cs.len());
    push_str(&mut r, rest.as_str());
    assert(rest@ =~= s@.skip(1));
    r
}

/// The item's name from a link `...|h[Name]|h...`, or `Item #<id>` when there
/// is no link or no name in it.
pub fn extract_item_name(item_link: Option<&str>, item_id: i64) -> (r: String)
    ensures
        r@ == item_name_of(str_opt(item_link), item_id),
{
    proof {
        reveal_strlit("|h[");
    }
    if let Some(link) = item_link {
        let hay = chars_of(link);
        let open = chars_of("|h[");
        if let Some(start) = find_chars(&hay, &open) {
            proof {
                lemma_find_from(hay@, open@, 0);
                assert(occurs_at(hay@, open@, start as int));
                assert(open@.len() == 3);
                assert(start + open@.len() <= hay@.len());
                assert(start + 3 <= hay.len());
            }
            let after = tail_chars(&hay, start + 3);
            let close = chars_of("]|h");
            if let Some(end) = find_chars(&after, &close) {
                proof {
                    lemma_find_from(after@, close@, 0);
                    assert(end + close@.len() <= after@.len());
                }
                assert(hay@.subrange(start + 3, start + 3 + end) == hay@.skip(start + 3).subrange(0, end as int));
                return string_of(&hay, start + 3, start + 3 + end);
            }
        }
    }
    let mut r = String::new();
    push_str(&mut r, "Item #");
    push_i64_decimal(&mut r, item_id);
    assert(r@ =~= "Item #"@ + int_decimal(item_id as int));
    r
}

} // verus!

verus! {

// ------------------------------------------------------------------
// Reading records
// ------------------------------------------------------------------

/// The number a value holds, integer or not.
fn amount_from(v: &Value) -> (r: Option<Amount>)
    ensures
        amount_opt(r) == amount_of(Some(v.model())),
{
    match v {
        Value::Int(i) => Some(Amount::Int(*i)),
        Value::Float(t) => Some(Amount::Decimal(t.clone())),
        _ => None,
    }
}

/// One auction's record, under its key `auction_id`.
fn parse_auction(auction_id: &str, v: &Value) -> (r: GdkpAuction)
    ensures
        r@ == auction_of(auction_id@, v.model()),
{
    let item_id = match int_field(v, "itemID") {
        Some(i) => i,
        None => 0,
    };
    let link = text_field(v, "itemLink");
    let item_name = extract_item_name(link, item_id);
    let item_link = match link {
        Some(t) => Some(t.to_owned()),
        None => None,
    };
    let price = match int_field(v, "price") {
        Some(p) => p,
        None => 0,
    };
    let created_at = match int_field(v, "createdAt") {
        Some(c) => c,
        None => 0,
    };
    let deleted_at = int_field(v, "deletedAt");
    let winner = v.get("Winner");
    let winner_name = text_field_or_empty(winner, "name");
    let winner_realm = text_field_or_empty(winner, "realm");
    let winner_class = text_field_or_empty(winner, "class");
    let id = match text_field(v, "ID") {
        Some(t) => t.to_owned(),
        None => auction_id.to_owned(),
    };
    GdkpAuction {
        id,
        item_id,
        item_link,
        item_name,
        price,
        winner_name,
        winner_realm,
        winner_class,
        created_at,
        deleted_at,
    }
}

/// The auctions of an `Auctions` table, ordered by creation time (ties in
/// table order); none when there is no such table.
fn parse_auctions(auctions_val: Option<&Value>) -> (r: Vec<GdkpAuction>)
    ensures
        stably_sorted(views(r@), auctions_listed(model_of(auctions_val)), rank_fn::<GdkpAuction>()),
{
    let mut out: Vec<GdkpAuction> = Vec::new();
    if let Some(av) = auctions_val {
        if let Some(o) = av.as_object() {
            let ghost listed = auctions_listed(model_of(auctions_val));
            let mut i: usize = 0;
            while i < o.len()
                invariant
                    i <= o.len(),
                    listed == entries_model(o@).map_values(
                        |e: (Seq<char>, Model)| auction_of(e.0, e.1),
                    ),
                    out.len() == i,
                    views(out@) == listed.take(i as int),
                decreases o.len() - i,
            {
                let a = parse_auction(o[i].0.as_str(), &o[i].1);
                assert(listed[i as int] == a@) by {
                    assert(entries_model(o@)[i as int] == (o@[i as int].0@, o@[i as int].1.model()));
                }
                let ghost prev = out@;
                out.push(a);
                assert forall|k: int| 0 <= k <= i implies views(out@)[k] == listed[k] by {
                    if k < i {
                        assert(out@[k] == prev[k]);
                        assert(views(prev)[k] == listed.take(i as int)[k]);
                    }
                }
                assert(views(out@) =~= listed.take(i + 1));
                i = i + 1;
            }
            assert(listed.take(o.len() as int) =~= listed);
        }
    }
    assert(auctions_listed(model_of(auctions_val)) == Seq::<AuctionView>::empty() ==> views(out@)
        =~= auctions_listed(model_of(auctions_val)));
    sort_by_rank(out)
}

} // verus!

verus! {

// ------------------------------------------------------------------
// Players' classes and cuts
// ------------------------------------------------------------------

pub open spec fn pairs_view(s: Seq<(String, String)>) -> Seq<(Seq<char>, Seq<char>)> {
    s.map_values(|p: (String, String)| (p.0@, p.1@))
}

/// Notes `class` for `guid` when both are known.
fn note_class(log: &mut Vec<(String, String)>, guid: String, class: String)
    ensures
        pairs_view(final(log)@) == pairs_view(old(log)@) + note(guid@, class@),
{
    if !guid.as_str().is_empty() && !class.as_str().is_empty() {
        let ghost g = guid@;
        let ghost c = class@;
        log.push((guid, class));
        assert(pairs_view(log@) =~= pairs_view(old(log)@) + seq![(g, c)]);
    } else {
        assert(pairs_view(log@) =~= pairs_view(old(log)@) + Seq::empty());
    }
}

/// Notes the classes of an auction's bidders, in order.
fn note_bidders(log: &mut Vec<(String, String)>, bids: &Vec<(String, Value)>)
    ensures
        pairs_view(final(log)@) == pairs_view(old(log)@) + bid_notes(entries_model(bids@)),
{
    let ghost bm = entries_model(bids@);
    let ghost start = pairs_view(log@);
    let mut j: usize = 0;
    assert(bm.take(0) =~= Seq::<(Seq<char>, Model)>::empty());
    assert(start + Seq::empty() =~= start);
    while j < bids.len()
        invariant
            j <= bids.len(),
            bm == entries_model(bids@),
            pairs_view(log@) == start + bid_notes(bm.take(j as int)),
        decreases bids.len() - j,
    {
        let bid = &bids[j].1;
        assert(bm[j as int].1 == bid.model());
        let ghost before = pairs_view(log@);
        match bid.get("Bidder") {
            Some(bidder) => {
                let guid = text_or_empty(bid, "bidder");
                let class = text_or_empty(bidder, "class");
                note_class(log, guid, class);
            },
            None => {
                assert(pairs_view(log@) =~= before + Seq::empty());
            },
        }
        assert(bm.take(j + 1).drop_last() =~= bm.take(j as int));
        assert(pairs_view(log@) =~= start + bid_notes(bm.take(j + 1)));
        j = j + 1;
    }
    assert(bm.take(bids.len() as int) =~= bm);
}

/// Every class noted in an `Auctions` table: each auction's winner's, then its
/// bidders'.
fn collect_classes(auctions_val: Option<&Value>) -> (r: Vec<(String, String)>)
    ensures
        pairs_view(r@) == class_log(model_of(auctions_val)),
{
    let mut log: Vec<(String, String)> = Vec::new();
    assert(pairs_view(log@) =~= Seq::empty());
    if let Some(av) = auctions_val {
        if let Some(o) = av.as_object() {
            let ghost om = entries_model(o@);
            let mut i: usize = 0;
            assert(om.take(0) =~= Seq::<(Seq<char>, Model)>::empty());
            while i < o.len()
                invariant
                    i <= o.len(),
                    om == entries_model(o@),
                    pairs_view(log@) == class_notes(om.take(i as int)),
                decreases o.len() - i,
            {
                let auction = &o[i].1;
                assert(om[i as int].1 == auction.model());
                let ghost before = pairs_view(log@);
                match auction.get("Winner") {
                    Some(w) => {
                        let guid = text_or_empty(w, "guid");
                        let class = text_or_empty(w, "class");
                        note_class(&mut log, guid, class);
                    },
                    None => {
                        assert(pairs_view(log@) =~= before + Seq::empty());
                    },
                }
                let ghost mid = pairs_view(log@);
                let bids_val = auction.get("Bids");
                let bids = match bids_val {
                    Some(b) => b.as_object(),
                    None => None,
                };
                match bids {
                    Some(b) => {
                        note_bidders(&mut log, b);
                    },
                    None => {
                        assert(pairs_view(log@) =~= mid + Seq::empty());
                    },
                }
                assert(om.take(i + 1).drop_last() =~= om.take(i as int));
                assert(pairs_view(log@) =~= class_notes(om.take(i + 1)));
                i = i + 1;
            }
            assert(om.take(o.len() as int) =~= om);
        }
    }
    log
}

/// The class last noted for `guid`, or empty.
fn class_for(log: &Vec<(String, String)>, guid: &str) -> (r: String)
    ensures
        r@ == last_class(pairs_view(log@), guid@),
{
    let ghost pv = pairs_view(log@);
    let mut k: usize = log.len();
    assert(pv.take(k as int) =~= pv);
    while k > 0
        invariant
            k <= log.len(),
            pv == pairs_view(log@),
            last_class(pv, guid@) == last_class(pv.take(k as int), guid@),
        decreases k,
    {
        assert(pv.take(k as int).last() == pv[k - 1]);
        assert(pv.take(k as int).drop_last() =~= pv.take(k - 1));
        if str_eq(log[k - 1].0.as_str(), guid) {
            return log[k - 1].1.clone();
        }
        k = k - 1;
    }
    String::new()
}

/// The cuts of a session's `Pot.Cuts`, ordered by player name (ties in table
/// order); none when there is no such table.
fn parse_cuts(pot_val: Option<&Value>, auctions_val: Option<&Value>) -> (r: Vec<GdkpCut>)
    ensures
        stably_sorted(
            views(r@),
            cuts_listed(model_of(pot_val), model_of(auctions_val)),
            rank_fn::<GdkpCut>(),
        ),
{
    let cuts_val = match pot_val {
        Some(p) => p.get("Cuts"),
        None => None,
    };
    let cuts_obj = match cuts_val {
        Some(c) => c.as_object(),
        None => None,
    };
    let mut out: Vec<GdkpCut> = Vec::new();
    if let Some(co) = cuts_obj {
        let log = collect_classes(auctions_val);
        let ghost f = cut_fn(class_log(model_of(auctions_val)));
        let ghost cm = entries_model(co@);
        let mut i: usize = 0;
        assert(cm.take(0) =~= Seq::<(Seq<char>, Model)>::empty());
        assert(views(out@) =~= Seq::<CutView>::empty());
        while i < co.len()
            invariant
                i <= co.len(),
                cm == entries_model(co@),
                f == cut_fn(class_log(model_of(auctions_val))),
                pairs_view(log@) == class_log(model_of(auctions_val)),
                views(out@) == cm.take(i as int).filter_map(f),
            decreases co.len() - i,
        {
            let guid = co[i].0.as_str();
            assert(cm[i as int] == (guid@, co@[i as int].1.model()));
            let ghost prev = out@;
            match amount_from(&co[i].1) {
                Some(a) => {
                    let parts = split_player_guid(guid);
                    let player_class = class_for(&log, guid);
                    let player_name = capitalize_first(parts.0.as_str());
                    let player_realm = capitalize_first(parts.1.as_str());
                    let cut = GdkpCut { player_name, player_realm, player_class, amount: a };
                    assert(f(cm[i as int]) == Some(cut@));
                    out.push(cut);
                    assert(views(out@) =~= views(prev) + seq![cut@]);
                },
                None => {
                    assert(f(cm[i as int]) is None);
                },
            }
            assert(cm.take(i + 1).drop_last() =~= cm.take(i as int));
            assert(cm.take(i + 1).last() == cm[i as int]);
            assert(views(out@) == cm.take(i + 1).filter_map(f));
            i = i + 1;
        }
        assert(cm.take(co.len() as int) =~= cm);
    } else {
        assert(views(out@) =~= Seq::<CutView>::empty());
    }
    assert(views(out@) == cuts_listed(model_of(pot_val), model_of(auctions_val)));
    sort_by_rank(out)
}

} // verus!

verus! {

// ------------------------------------------------------------------
// Sessions and the ledger
// ------------------------------------------------------------------

/// The pot of a session's auctions.
fn total_pot_of(auctions: &Vec<GdkpAuction>) -> (r: i64)
    ensures
        r == pot_of(views(auctions@)),
{
    let ghost av = views(auctions@);
    let mut total: i64 = 0;
    let mut i: usize = 0;
    assert(av.take(0) =~= Seq::<AuctionView>::empty());
    while i < auctions.len()
        invariant
            i <= auctions.len(),
            av == views(auctions@),
            total == pot_of(av.take(i as int)),
        decreases auctions.len() - i,
    {
        let a = &auctions[i];
        assert(av[i as int] == a@);
        if a.deleted_at.is_none() && a.price > 0 {
            total = total.wrapping_add(a.price);
        }
        assert(av.take(i + 1).drop_last() =~= av.take(i as int));
        assert(av.take(i + 1).last() == av[i as int]);
        i = i + 1;
    }
    assert(av.take(auctions.len() as int) =~= av);
    total
}

/// A session's record, under its key `session_id`; an error for a deleted session.
fn parse_session(session_id: &str, val: &Value) -> (r: Result<GdkpSession, String>)
    ensures
        session_deleted(val.model()) ==> (r matches Err(e) && e@ == "Session is deleted"@),
        !session_deleted(val.model()) ==> (r matches Ok(s) && session_matches(
            s@,
            session_id@,
            val.model(),
        )),
{
    let title = match text_field(val, "title") {
        Some(t) => t.to_owned(),
        None => "Untitled Session".to_owned(),
    };
    let created_at = match int_field(val, "createdAt") {
        Some(c) => c,
        None => 0,
    };
    let locked_at = int_field(val, "lockedAt");
    let deleted_at = int_field(val, "deletedAt");
    if deleted_at.is_some() {
        return Err("Session is deleted".to_owned());
    }
    let management_cut = match val.get("managementCut") {
        Some(m) => amount_from(m),
        None => None,
    };
    let auctions_val = val.get("Auctions");
    let auctions = parse_auctions(auctions_val);
    let total_pot = total_pot_of(&auctions);
    let cuts = parse_cuts(val.get("Pot"), auctions_val);
    let id = match text_field(val, "ID") {
        Some(t) => t.to_owned(),
        None => session_id.to_owned(),
    };
    Ok(
        GdkpSession {
            id,
            title,
            created_at,
            locked_at,
            management_cut,
            total_pot,
            auctions,
            cuts,
        },
    )
}

proof fn lemma_nothing_kept()
    ensures
        kept_sessions(Seq::empty()) == Seq::<(Seq<char>, Model)>::empty(),
{
    reveal(Seq::filter);
}

/// Reads the GDKP sessions of a `Gargul.lua` SavedVariables file: the ledger's
/// sessions that are not deleted, ordered by creation time, each with its
/// auctions ordered by creation time and its cuts by player name. A file
/// without a ledger has no sessions; a file that cannot be read gives
/// `Failed to parse GargulDB: ...`.
pub fn parse_gargul_gdkp(file_content: &str) -> (r: Result<GargulSyncPayload, String>)
    requires
        !(read_saved_variable(file_content@, "GargulDB"@) is Abort),
    ensures
        match read_saved_variable(file_content@, "GargulDB"@) {
            Scan::Done(db, _) => r matches Ok(p) && payload_matches(p@, db),
            Scan::Fail(f, at) => r matches Err(e) && e@ == "Failed to parse GargulDB: "@
                + parse_error_text(fault_message(f), at),
            Scan::Abort => false,
        },
{
    match parse_gargul_gdkp_checked(file_content) {
        Some(r) => r,
        None => Err(String::new()),
    }
}

/// As [`parse_gargul_gdkp`], on every text: `None` exactly where reading
/// `GargulDB` stops abnormally (a table's array index past `i64::MAX`).
pub fn parse_gargul_gdkp_checked(file_content: &str) -> (r: Option<
    Result<GargulSyncPayload, String>,
>)
    ensures
        match read_saved_variable(file_content@, "GargulDB"@) {
            Scan::Done(db, _) => r matches Some(Ok(p)) && payload_matches(p@, db),
            Scan::Fail(f, at) => r matches Some(Err(e)) && e@ == "Failed to parse GargulDB: "@
                + parse_error_text(fault_message(f), at),
            Scan::Abort => r is None,
        },
{
    match parse_saved_variable_checked(file_content, "GargulDB") {
        None => None,
        Some(Ok(v)) => Some(Ok(gdkp_payload(&v))),
        Some(Err(e)) => {
            let mut m = String::new();
            push_str(&mut m, "Failed to parse GargulDB: ");
            let d = e.describe();
            push_str(&mut m, d.as_str());
            assert(m@ =~= "Failed to parse GargulDB: "@ + d@);
            Some(Err(m))
        },
    }
}

/// The GDKP sessions of a read `GargulDB`.
fn gdkp_payload(gargul_db: &Value) -> (p: GargulSyncPayload)
    ensures
        payload_matches(p@, gargul_db.model()),
{
    let ghost db = gargul_db.model();
    let ghost ledger = ledger_of(db);
    let gdkp = gargul_db.get("GDKP");
    let ledger_val = match gdkp {
        Some(g) => g.get("Ledger"),
        None => None,
    };
    let ledger_obj = match ledger_val {
        Some(l) => l.as_object(),
        None => None,
    };
    let mut sessions: Vec<GdkpSession> = Vec::new();
    match ledger_obj {
        Some(lo) => {
            assert(entries_model(lo@) == ledger);
            let mut i: usize = 0;
            proof {
                assert(ledger.take(0) =~= Seq::<(Seq<char>, Model)>::empty());
                lemma_nothing_kept();
            }
            while i < lo.len()
                invariant
                    i <= lo.len(),
                    entries_model(lo@) == ledger,
                    sessions_listed(views(sessions@), ledger.take(i as int)),
                decreases lo.len() - i,
            {
                let sid = lo[i].0.as_str();
                let sval = &lo[i].1;
                let ghost e = ledger[i as int];
                assert(e == (sid@, sval.model()));
                let ghost kept = kept_sessions(ledger.take(i as int));
                let ghost prev = views(sessions@);
                proof {
                    assert(ledger.take(i + 1) =~= ledger.take(i as int).push(e));
                    ledger.take(i as int).lemma_filter_push(
                        e,
                        |x: (Seq<char>, Model)| !session_deleted(x.1),
                    );
                }
                match parse_session(sid, sval) {
                    Ok(s) => {
                        let ghost sv = s@;
                        sessions.push(s);
                        assert(views(sessions@) =~= prev.push(sv));
                        assert(kept_sessions(ledger.take(i + 1)) == kept.push(e));
                        assert forall|j: int| 0 <= j < views(sessions@).len() implies session_matches(
                            #[trigger] views(sessions@)[j],
                            kept_sessions(ledger.take(i + 1))[j].0,
                            kept_sessions(ledger.take(i + 1))[j].1,
                        ) by {
                            if j < prev.len() {
                                assert(views(sessions@)[j] == prev[j]);
                            }
                        }
                    },
                    Err(_) => {
                        assert(kept_sessions(ledger.take(i + 1)) == kept);
                    },
                }
                i = i + 1;
            }
            assert(ledger.take(lo.len() as int) =~= ledger);
        },
        None => {
            assert(ledger == Seq::<(Seq<char>, Model)>::empty());
            proof {
                lemma_nothing_kept();
            }
            assert(views(sessions@) =~= Seq::<SessionView>::empty());
        },
    }
    let ghost unsorted = views(sessions@);
    assert(sessions_listed(unsorted, ledger));
    let sorted = sort_by_rank(sessions);
    let p = GargulSyncPayload { sessions: sorted };
    assert(stably_sorted(p@, unsorted, rank_fn::<GdkpSession>()));
    p
}

} // verus!
