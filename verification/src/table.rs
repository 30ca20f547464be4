//! The table: the melds that have been played, the latest at position 1.

use crate::sequence_cards::{all_wf, card_code, cards_to_codes, codes_to_cards, Card, Sequence};
use std::collections::HashMap;
use vstd::prelude::*;

verus! {

/// The byte that closes a meld in the encoding of a table. No card has this
/// code.
pub const MELD_END: u8 = 255;

/// Every card on the table has a rank in 1..=13.
pub open spec fn table_wf(melds: Seq<Seq<Card>>) -> bool {
    forall|i: int| 0 <= i < melds.len() ==> all_wf(#[trigger] melds[i])
}

/// The encoding of a table: the codes of each meld followed by the closing
/// byte, the meld at the last position first and the one at position 1 last.
pub open spec fn table_to_codes(melds: Seq<Seq<Card>>) -> Seq<u8>
    decreases melds.len(),
{
    if melds.len() == 0 {
        Seq::empty()
    } else {
        table_to_codes(melds.drop_first()) + cards_to_codes(melds[0]) + seq![MELD_END]
    }
}

/// The bytes that follow the last closing byte: a meld that is not closed
/// yet.
pub open spec fn pending_codes(bytes: Seq<u8>) -> Seq<u8>
    decreases bytes.len(),
{
    if bytes.len() == 0 {
        Seq::empty()
    } else if bytes.last() == MELD_END {
        Seq::empty()
    } else {
        pending_codes(bytes.drop_last()).push(bytes.last())
    }
}

/// The table that a sequence of bytes stands for. Each closing byte closes
/// the meld made of the bytes since the closing byte before it, and that
/// meld goes to position 1. Bytes behind the last closing byte count for
/// nothing.
pub open spec fn codes_to_table(bytes: Seq<u8>) -> Seq<Seq<Card>>
    decreases bytes.len(),
{
    if bytes.len() == 0 {
        Seq::empty()
    } else if bytes.last() == MELD_END {
        seq![codes_to_cards(pending_codes(bytes.drop_last()))] + codes_to_table(
            bytes.drop_last(),
        )
    } else {
        codes_to_table(bytes.drop_last())
    }
}

/// Bytes without a closing byte, put behind other bytes, add nothing to the
/// table and lengthen the meld that is not closed yet.
proof fn lemma_open_codes(head: Seq<u8>, tail: Seq<u8>)
    requires
        forall|i: int| 0 <= i < tail.len() ==> tail[i] != MELD_END,
    ensures
        codes_to_table(head + tail) == codes_to_table(head),
        pending_codes(head + tail) == pending_codes(head) + tail,
    decreases tail.len(),
{
    if tail.len() == 0 {
        assert(head + tail =~= head);
        assert(pending_codes(head) + tail =~= pending_codes(head));
    } else {
        let front = tail.drop_last();
        lemma_open_codes(head, front);
        assert((head + tail).drop_last() =~= head + front);
        assert((head + tail).last() == tail.last());
        assert(pending_codes(head + tail) =~= pending_codes(head) + tail);
    }
}

/// What the codes of a table end with leaves no meld open.
proof fn lemma_table_codes_closed(melds: Seq<Seq<Card>>)
    ensures
        pending_codes(table_to_codes(melds)) == Seq::<u8>::empty(),
    decreases melds.len(),
{
    if melds.len() > 0 {
        let bytes = table_to_codes(melds);
        assert(bytes.last() == MELD_END);
    }
}

/// Decoding the encoding of a table of well-formed cards gives the same
/// table back.
pub proof fn lemma_table_round_trip(melds: Seq<Seq<Card>>)
    requires
        table_wf(melds),
    ensures
        codes_to_table(table_to_codes(melds)) == melds,
    decreases melds.len(),
{
    if melds.len() == 0 {
        assert(codes_to_table(table_to_codes(melds)) =~= melds);
    } else {
        let rest = melds.drop_first();
        let head = table_to_codes(rest);
        let body = cards_to_codes(melds[0]);
        let bytes = table_to_codes(melds);
        assert(table_wf(rest)) by {
            assert forall|i: int| 0 <= i < rest.len() implies all_wf(#[trigger] rest[i]) by {
                assert(rest[i] == melds[i + 1]);
            }
        }
        lemma_table_round_trip(rest);
        lemma_table_codes_closed(rest);
        assert(all_wf(melds[0]));
        assert forall|i: int| 0 <= i < body.len() implies body[i] != MELD_END by {
            crate::sequence_cards::lemma_card_code_round_trip(melds[0][i]);
        }
        lemma_open_codes(head, body);
        assert(bytes.drop_last() =~= head + body);
        assert(pending_codes(head + body) =~= body);
        crate::sequence_cards::lemma_codes_round_trip(melds[0]);
        assert(codes_to_table(bytes) =~= seq![melds[0]] + rest);
        assert(seq![melds[0]] + rest =~= melds);
    }
}

/// How many of the cards have the given code.
pub open spec fn count_code(cards: Seq<Card>, code: u8) -> nat
    decreases cards.len(),
{
    if cards.len() == 0 {
        0
    } else {
        count_code(cards.drop_last(), code) + if card_code(cards.last()) == code {
            1nat
        } else {
            0nat
        }
    }
}

/// How many of the cards on the table have the given code.
pub open spec fn count_on_table(melds: Seq<Seq<Card>>, code: u8) -> nat
    decreases melds.len(),
{
    if melds.len() == 0 {
        0
    } else {
        count_on_table(melds.drop_last(), code) + count_code(melds.last(), code)
    }
}

/// Whether a count of cards by code is the count of the cards on the table:
/// it has an entry for each code that a card on the table has, and the
/// entry is the number of such cards.
pub open spec fn counts_table(counts: Map<u8, u16>, melds: Seq<Seq<Card>>) -> bool {
    forall|code: u8|
        {
            &&& #[trigger] counts.contains_key(code) <==> count_on_table(melds, code) > 0
            &&& counts.contains_key(code) ==> counts[code] == count_on_table(melds, code)
        }
}

/// Whether the table holds the cards of a count: for each code in the
/// count a card at least, and as many as the count asks for.
pub open spec fn table_covers(melds: Seq<Seq<Card>>, counts: Map<u8, u16>) -> bool {
    forall|code: u8| #[trigger]
        counts.contains_key(code) ==> count_on_table(melds, code) > 0 && count_on_table(
            melds,
            code,
        ) >= counts[code]
}

/// Among the first cards there are no more of a code than among all.
proof fn lemma_count_code_take(cards: Seq<Card>, j: int, code: u8)
    requires
        0 <= j <= cards.len(),
    ensures
        count_code(cards.take(j), code) <= count_code(cards, code),
    decreases cards.len() - j,
{
    if j < cards.len() {
        lemma_count_code_take(cards, j + 1, code);
        assert(cards.take(j + 1).drop_last() =~= cards.take(j));
    } else {
        assert(cards.take(j) =~= cards);
    }
}

/// Among the first melds there are no more cards of a code than among all.
proof fn lemma_count_on_table_take(melds: Seq<Seq<Card>>, i: int, code: u8)
    requires
        0 <= i <= melds.len(),
    ensures
        count_on_table(melds.take(i), code) <= count_on_table(melds, code),
    decreases melds.len() - i,
{
    if i < melds.len() {
        lemma_count_on_table_take(melds, i + 1, code);
        assert(melds.take(i + 1).drop_last() =~= melds.take(i));
    } else {
        assert(melds.take(i) =~= melds);
    }
}

/// The melds on the table. Position 1 is the meld that was added last.
#[derive(Debug, PartialEq)]
pub struct Table {
    sequences: Vec<Sequence>,
}

impl View for Table {
    type V = Seq<Seq<Card>>;

    closed spec fn view(&self) -> Seq<Seq<Card>> {
        self.sequences@.map_values(|s: Sequence| s@)
    }
}

impl Clone for Table {
    fn clone(&self) -> (res: Self)
        ensures
            res@ == self@,
    {
        let mut sequences: Vec<Sequence> = Vec::new();
        let n: usize = self.sequences.len();
        let mut i: usize = 0;
        while i < n
            invariant
                n == self.sequences@.len(),
                i <= n,
                sequences@.len() == i,
                forall|k: int| 0 <= k < i ==> (#[trigger] sequences@[k])@ == self.sequences@[k]@,
            decreases n - i,
        {
            sequences.push(self.sequences[i].clone());
            i += 1;
        }
        let res = Table { sequences };
        assert(res@ =~= self@);
        res
    }
}

impl Table {
    /// Every card on the table has a rank in 1..=13.
    pub open spec fn wf(&self) -> bool {
        table_wf(self@)
    }

    /// Whether every card on the table is well formed.
    pub fn is_well_formed(&self) -> (res: bool)
        ensures
            res == self.wf(),
    {
        let n: usize = self.sequences.len();
        let mut i: usize = 0;
        while i < n
            invariant
                n == self.sequences@.len(),
                n == self@.len(),
                i <= n,
                forall|k: int| 0 <= k < i ==> all_wf(#[trigger] self@[k]),
            decreases n - i,
        {
            assert(self@[i as int] == self.sequences@[i as int]@);
            if !self.sequences[i].is_well_formed() {
                return false;
            }
            i += 1;
        }
        true
    }

    /// A table with no meld on it.
    pub fn new() -> (res: Table)
        ensures
            res@ == Seq::<Seq<Card>>::empty(),
    {
        let res = Table { sequences: Vec::new() };
        assert(res@ =~= Seq::<Seq<Card>>::empty());
        res
    }

    /// The number of melds on the table.
    pub fn number_sequences(&self) -> (n: usize)
        ensures
            n == self@.len(),
    {
        self.sequences.len()
    }

    /// The melds, the one at position 1 first.
    pub fn to_vec(&self) -> (res: Vec<Sequence>)
        ensures
            res@.len() == self@.len(),
            forall|i: int| 0 <= i < res@.len() ==> (#[trigger] res@[i])@ == self@[i],
    {
        let copy = self.clone();
        assert(copy@ == self@);
        assert(copy.sequences@.len() == self@.len());
        assert forall|i: int| 0 <= i < copy.sequences@.len() implies (#[trigger] copy.sequences@[i])@
            == self@[i] by {
            assert(copy@[i] == copy.sequences@[i]@);
        }
        copy.sequences
    }

    /// Decodes a table. Each meld is closed by the byte 255; bytes behind
    /// the last 255 are passed over.
    pub fn from_bytes(bytes: &[u8]) -> (res: Table)
        ensures
            res@ == codes_to_table(bytes@),
            res.wf(),
    {
        let mut cur_seq: Vec<u8> = Vec::new();
        let mut sequences: Vec<Sequence> = Vec::new();
        let n: usize = bytes.len();
        let mut i: usize = 0;
        let ghost mut melds: Seq<Seq<Card>> = Seq::empty();
        assert(bytes@.take(0) =~= Seq::<u8>::empty());
        while i < n
            invariant
                n == bytes@.len(),
                i <= n,
                melds == sequences@.map_values(|s: Sequence| s@),
                melds == codes_to_table(bytes@.take(i as int)),
                cur_seq@ == pending_codes(bytes@.take(i as int)),
                table_wf(melds),
            decreases n - i,
        {
            let b: u8 = bytes[i];
            proof {
                assert(bytes@.take(i + 1).drop_last() =~= bytes@.take(i as int));
                assert(bytes@.take(i + 1).last() == b);
            }
            if b == MELD_END {
                let meld = Sequence::from_bytes(cur_seq.as_slice());
                sequences.insert(0, meld);
                cur_seq = Vec::new();
                proof {
                    melds = seq![meld@] + melds;
                    assert(melds =~= sequences@.map_values(|s: Sequence| s@));
                }
            } else {
                cur_seq.push(b);
            }
            i += 1;
        }
        assert(bytes@.take(n as int) =~= bytes@);
        Table { sequences }
    }

    /// Encodes the table: each meld's card codes followed by the byte 255,
    /// the meld at position 1 last.
    pub fn to_bytes(&self) -> (res: Vec<u8>)
        requires
            self.wf(),
        ensures
            res@ == table_to_codes(self@),
    {
        let mut res: Vec<u8> = Vec::new();
        let n: usize = self.sequences.len();
        let mut i: usize = n;
        assert(self@.skip(n as int) =~= Seq::<Seq<Card>>::empty());
        while i > 0
            invariant
                n == self.sequences@.len(),
                n == self@.len(),
                i <= n,
                table_wf(self@),
                res@ == table_to_codes(self@.skip(i as int)),
            decreases i,
        {
            i -= 1;
            assert(self@[i as int] == self.sequences@[i as int]@);
            assert(all_wf(self@[i as int]));
            let mut codes = self.sequences[i].to_bytes();
            proof {
                assert(self@.skip(i as int).drop_first() =~= self@.skip(i + 1));
                assert(self@.skip(i as int)[0] == self@[i as int]);
            }
            res.append(&mut codes);
            res.push(MELD_END);
        }
        assert(self@.skip(0) =~= self@);
        res
    }

    /// How many of the cards on the table have the given code.
    pub fn count_code_on_table(&self, code: u8) -> (res: u16)
        requires
            self.wf(),
            count_on_table(self@, code) <= u16::MAX,
        ensures
            res == count_on_table(self@, code),
    {
        let mut res: u16 = 0;
        let n: usize = self.sequences.len();
        let mut i: usize = 0;
        assert(self@.take(0) =~= Seq::<Seq<Card>>::empty());
        while i < n
            invariant
                n == self.sequences@.len(),
                n == self@.len(),
                i <= n,
                table_wf(self@),
                count_on_table(self@, code) <= u16::MAX,
                res == count_on_table(self@.take(i as int), code),
            decreases n - i,
        {
            let cards = self.sequences[i].to_vec();
            assert(cards@ == self@[i as int]);
            proof {
                assert(self@.take(i + 1).drop_last() =~= self@.take(i as int));
                assert(self@.take(i + 1).last() == cards@);
                lemma_count_on_table_take(self@, i + 1, code);
            }
            let m: usize = cards.len();
            let mut j: usize = 0;
            let ghost base = res;
            assert(cards@.take(0) =~= Seq::<Card>::empty());
            while j < m
                invariant
                    m == cards@.len(),
                    j <= m,
                    all_wf(cards@),
                    base + count_code(cards@, code) <= u16::MAX,
                    res == base + count_code(cards@.take(j as int), code),
                decreases m - j,
            {
                proof {
                    assert(cards@.take(j + 1).drop_last() =~= cards@.take(j as int));
                    assert(cards@.take(j + 1).last() == cards@[j as int]);
                    lemma_count_code_take(cards@, j + 1, code);
                }
                assert(cards@[j as int].wf());
                if cards[j].to_byte() == code {
                    res += 1;
                }
                j += 1;
            }
            assert(cards@.take(m as int) =~= cards@);
            i += 1;
        }
        assert(self@.take(n as int) =~= self@);
        res
    }

    /// Counts the cards on the table by their code. A code that no card on
    /// the table has gets no entry.
    pub fn count_cards(&self) -> (res: HashMap<u8, u16>)
        requires
            self.wf(),
            forall|code: u8| count_on_table(self@, code) <= u16::MAX,
        ensures
            counts_table(res@, self@),
    {
        broadcast use vstd::std_specs::hash::group_hash_axioms;

        let mut res: HashMap<u8, u16> = HashMap::new();
        let mut code: u8 = 0;
        loop
            invariant_except_break
                forall|c: u8|
                    c < code ==> (#[trigger] res@.contains_key(c) <==> count_on_table(self@, c)
                        > 0),
                forall|c: u8|
                    c < code && #[trigger] res@.contains_key(c) ==> res@[c] == count_on_table(
                        self@,
                        c,
                    ),
                forall|c: u8| c >= code ==> !#[trigger] res@.contains_key(c),
            invariant
                self.wf(),
                forall|c: u8| count_on_table(self@, c) <= u16::MAX,
            ensures
                counts_table(res@, self@),
            decreases 255 - code,
        {
            let count = self.count_code_on_table(code);
            if count > 0 {
                res.insert(code, count);
            }
            if code == 255 {
                break ;
            }
            code += 1;
        }
        res
    }

    /// Whether the table holds the cards of a count by code: for each code
    /// in the count a card at least, and as many as the count asks for.
    pub fn contains_hm(&self, card_count: &HashMap<u8, u16>) -> (res: bool)
        requires
            self.wf(),
            forall|code: u8| count_on_table(self@, code) <= u16::MAX,
        ensures
            res == table_covers(self@, card_count@),
    {
        broadcast use vstd::std_specs::hash::group_hash_axioms;

        let mut code: u8 = 0;
        loop
            invariant_except_break
                forall|c: u8|
                    c < code && #[trigger] card_count@.contains_key(c) ==> count_on_table(
                        self@,
                        c,
                    ) > 0 && count_on_table(self@, c) >= card_count@[c],
            invariant
                self.wf(),
                forall|c: u8| count_on_table(self@, c) <= u16::MAX,
            ensures
                table_covers(self@, card_count@),
            decreases 255 - code,
        {
            match card_count.get(&code) {
                Some(wanted) => {
                    let have = self.count_code_on_table(code);
                    if have == 0 || have < *wanted {
                        return false;
                    }
                },
                None => {},
            }
            if code == 255 {
                break ;
            }
            code += 1;
        }
        true
    }

    /// Puts a meld at position 1; the melds that were there move back by
    /// one.
    pub fn add(&mut self, sequence: Sequence)
        ensures
            final(self)@ == seq![sequence@] + old(self)@,
    {
        self.sequences.insert(0, sequence);
        assert(self@ =~= seq![sequence@] + old(self)@);
    }

    /// Takes the meld at position `n` (counted from 1) off the table; the
    /// melds behind it move up by one. Nothing is taken where `n` is no
    /// position.
    pub fn take(&mut self, n: usize) -> (res: Option<Sequence>)
        ensures
            1 <= n <= old(self)@.len() ==> res is Some && res->0@ == old(self)@[n - 1],
            1 <= n <= old(self)@.len() ==> final(self)@ == old(self)@.remove(n - 1),
            !(1 <= n <= old(self)@.len()) ==> res is None && final(self)@ == old(self)@,
    {
        if n == 0 || n > self.sequences.len() {
            return None;
        }
        let taken = self.sequences.remove(n - 1);
        assert(self@ =~= old(self)@.remove(n - 1));
        assert(old(self)@[n - 1] == old(self).sequences@[n - 1]@);
        Some(taken)
    }
}

} // verus!
