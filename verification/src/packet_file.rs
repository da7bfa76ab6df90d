//! Packets and their policy as their files list them.

use crate::forest::PrefixPack;
use crate::kinds::packet_bank;
use crate::packets::{LoadedPacket, LoadedPacketPolicy, LoadedPacketScheduler, PacketPolicyRow};
use crate::scan::{chars_of, number, read_number, trim, trimmed};
use crate::sorting::{place_for, put_in, sorted};
use crate::text::same_text;
use vstd::prelude::*;

verus! {

/// The texts between the places where `c` stands.
pub open spec fn split(s: Seq<char>, c: char) -> Seq<Seq<char>>
    decreases s.len(),
{
    if s.len() == 0 {
        seq![Seq::empty()]
    } else {
        let before = split(s.drop_last(), c);
        if s.last() == c {
            before.push(Seq::empty())
        } else {
            before.drop_last().push(before.last().push(s.last()))
        }
    }
}

/// A text is made up of its pieces: joined with the separator they give it back.
pub open spec fn joined_by(p: Seq<Seq<char>>, c: char) -> Seq<char>
    decreases p.len(),
{
    if p.len() == 0 {
        Seq::empty()
    } else if p.len() == 1 {
        p[0]
    } else {
        joined_by(p.drop_last(), c).push(c) + p.last()
    }
}

/// Pieces joined with their separator give the text back, and none of them holds it.
pub proof fn law_split_is_undone(s: Seq<char>, c: char)
    ensures
        split(s, c).len() > 0,
        joined_by(split(s, c), c) == s,
        forall|i: int| 0 <= i < split(s, c).len() ==> !(#[trigger] split(s, c)[i]).contains(c),
    decreases s.len(),
{
    let p = split(s, c);
    if s.len() > 0 {
        let t = s.drop_last();
        law_split_is_undone(t, c);
        let before = split(t, c);
        if s.last() == c {
            assert(p.drop_last() =~= before);
            assert(joined_by(p, c) =~= s);
            assert forall|i: int| 0 <= i < p.len() implies !(#[trigger] p[i]).contains(c) by {
                if i < before.len() {
                    assert(p[i] == before[i]);
                }
            }
        } else {
            let last = before.last().push(s.last());
            assert(p.last() == last);
            assert(p.drop_last() =~= before.drop_last());
            if before.len() == 1 {
                assert(joined_by(p, c) == before[0].push(s.last()));
                assert(before[0] == t);
            } else {
                let head = joined_by(before.drop_last(), c).push(c);
                assert(t == head + before.last());
                assert(joined_by(p, c) == head + last);
                assert(head + last =~= t.push(s.last()));
            }
            assert(t.push(s.last()) =~= s);
            assert(joined_by(p, c) =~= s);
            assert forall|i: int| 0 <= i < p.len() implies !(#[trigger] p[i]).contains(c) by {
                if i < before.len() - 1 {
                    assert(p[i] == before[i]);
                } else {
                    let b = before[before.len() - 1];
                    assert(!b.contains(c));
                    if p[i].contains(c) {
                        let k = choose|k: int| 0 <= k < p[i].len() && p[i][k] == c;
                        if k < b.len() {
                            assert(b[k] == c);
                        }
                    }
                }
            }
        }
    } else {
        assert(p[0] =~= s);
    }
}

/// Lists of characters as texts.
pub open spec fn texts(v: Seq<Vec<char>>) -> Seq<Seq<char>> {
    Seq::new(v.len(), |i: int| v[i]@)
}

/// Splits a text.
pub fn split_at_each(s: &[char], c: char) -> (r: Vec<Vec<char>>)
    ensures
        texts(r@) == split(s@, c),
        r@.len() > 0,
{
    let mut done: Vec<Vec<char>> = Vec::new();
    let mut now: Vec<char> = Vec::new();
    let mut i: usize = 0;
    assert(s@.take(0) =~= Seq::empty());
    assert(texts(done@).push(now@) =~= split(s@.take(0), c));
    while i < s.len()
        invariant
            i <= s@.len(),
            texts(done@).push(now@) == split(s@.take(i as int), c),
        decreases s@.len() - i,
    {
        let x: char = s[i];
        let ghost t = s@.take(i + 1);
        assert(t.drop_last() =~= s@.take(i as int));
        let ghost before = texts(done@).push(now@);
        assert(before.drop_last() =~= texts(done@));
        if x == c {
            let ghost d = done@;
            done.push(now);
            now = Vec::new();
            assert(texts(done@) =~= before);
            assert(now@ =~= Seq::empty());
        } else {
            now.push(x);
        }
        i += 1;
    }
    assert(s@.take(s@.len() as int) =~= s@);
    let ghost d = done@;
    done.push(now);
    assert(texts(done@) =~= texts(d).push(now@));
    done
}

/// A line without the return that its break began with.
pub open spec fn without_return(s: Seq<char>) -> Seq<char> {
    if s.len() > 0 && s.last() == '\r' {
        s.drop_last()
    } else {
        s
    }
}

/// The lines of a text. The last one needs no break.
pub open spec fn lines_of(s: Seq<char>) -> Seq<Seq<char>> {
    let p = split(s, '\n');
    let whole = Seq::new((p.len() - 1) as nat, |i: int| without_return(p[i]));
    if p.last().len() == 0 {
        whole
    } else {
        whole.push(p.last())
    }
}

/// Cuts a text into lines.
pub fn cut_lines(s: &[char]) -> (r: Vec<Vec<char>>)
    ensures
        texts(r@) == lines_of(s@),
{
    let parts: Vec<Vec<char>> = split_at_each(s, '\n');
    let ghost p = split(s@, '\n');
    let n: usize = parts.len() - 1;
    let ghost whole = Seq::new(n as nat, |i: int| without_return(p[i]));
    let mut out: Vec<Vec<char>> = Vec::new();
    let mut i: usize = 0;
    assert(texts(out@) =~= whole.take(0));
    while i < n
        invariant
            i <= n,
            n + 1 == parts@.len(),
            texts(parts@) == p,
            whole == Seq::new(n as nat, |k: int| without_return(p[k])),
            texts(out@) == whole.take(i as int),
        decreases n - i,
    {
        let line: &Vec<char> = &parts[i];
        assert(p[i as int] == line@);
        let k: usize = line.len();
        let cut: usize = if k > 0 && line[k - 1] == '\r' {
            k - 1
        } else {
            k
        };
        let one: Vec<char> = vstd::slice::slice_to_vec(
            vstd::slice::slice_subrange(line.as_slice(), 0, cut),
        );
        assert(one@ =~= without_return(p[i as int]));
        let ghost before = texts(out@);
        out.push(one);
        assert(texts(out@) =~= before.push(whole[i as int]));
        assert(whole.take(i + 1) =~= whole.take(i as int).push(whole[i as int]));
        i += 1;
    }
    assert(whole.take(n as int) =~= whole);
    let last: &Vec<char> = &parts[n];
    assert(p.last() == last@);
    if last.len() > 0 {
        let ghost before = texts(out@);
        out.push(vstd::slice::slice_to_vec(last.as_slice()));
        assert(texts(out@) =~= before.push(last@));
    }
    out
}

/// The last place at which a text stands among the first `n`.
pub open spec fn last_place(names: Seq<Seq<char>>, name: Seq<char>, n: int) -> Option<int>
    decreases n,
{
    if n <= 0 {
        None
    } else if names[n - 1] == name {
        Some(n - 1)
    } else {
        last_place(names, name, n - 1)
    }
}

fn chars_are(s: &Vec<char>, t: &str) -> (r: bool)
    ensures
        r == (s@ == t@),
{
    let u: Vec<char> = chars_of(t);
    if s.len() != u.len() {
        return false;
    }
    let mut i: usize = 0;
    while i < s.len()
        invariant
            i <= s@.len(),
            s@.len() == u@.len(),
            u@ == t@,
            forall|k: int| 0 <= k < i ==> s@[k] == u@[k],
        decreases s@.len() - i,
    {
        if s[i] != u[i] {
            assert(s@[i as int] != t@[i as int]);
            return false;
        }
        i += 1;
    }
    assert(s@ =~= t@);
    true
}

/// The columns that packets are read from.
#[derive(Clone, Copy, Debug, PartialEq, Eq, Structural)]
pub enum Column {
    PacketId,
    PacketBank,
    TreeCount,
    BlockCost,
    TreePosList,
}

/// The name of a column.
pub open spec fn column_name(c: Column) -> Seq<char> {
    match c {
        Column::PacketId => "packet_id"@,
        Column::PacketBank => "packet_bank"@,
        Column::TreeCount => "tree_count"@,
        Column::BlockCost => "block_cost"@,
        Column::TreePosList => "tree_pos_list"@,
    }
}

/// Why packets cannot be read.
#[derive(Clone, Copy, Debug, PartialEq, Eq, Structural)]
pub enum TsvError {
    NoHeader,
    NoColumn { column: Column },
    Missing { line: usize, column: Column },
    Unreadable { line: usize, column: Column },
}

/// Where a column stands; of two with one name the later.
pub open spec fn place_of_column(names: Seq<Seq<char>>, c: Column) -> Option<int> {
    last_place(names, column_name(c), names.len() as int)
}

fn find_column(names: &Vec<Vec<char>>, c: Column) -> (r: Option<usize>)
    ensures
        match r {
            Some(i) => place_of_column(texts(names@), c) == Some(i as int) && i < names@.len(),
            None => place_of_column(texts(names@), c) is None,
        },
{
    let name: &str = match c {
        Column::PacketId => "packet_id",
        Column::PacketBank => "packet_bank",
        Column::TreeCount => "tree_count",
        Column::BlockCost => "block_cost",
        Column::TreePosList => "tree_pos_list",
    };
    let mut i: usize = names.len();
    while i > 0
        invariant
            i <= names@.len(),
            name@ == column_name(c),
            place_of_column(texts(names@), c) == last_place(
                texts(names@),
                column_name(c),
                i as int,
            ),
        decreases i,
    {
        i -= 1;
        if chars_are(&names[i], name) {
            return Some(i);
        }
    }
    None
}

/// A packet as its line lists it.
#[verifier::ext_equal]
pub struct PacketView {
    pub packet_id: usize,
    pub bank_id: i8,
    pub tree_indices: Seq<u32>,
    pub tree_count: usize,
    pub block_proxy: u64,
}

/// What a packet that has no form of its own holds.
pub open spec fn packet_view(p: LoadedPacket) -> PacketView {
    PacketView {
        packet_id: p.packet_id,
        bank_id: p.bank_id,
        tree_indices: p.tree_indices@,
        tree_count: p.tree_count,
        block_proxy: p.block_proxy,
    }
}

/// Whether what the caller makes of costs follows `m`.
pub open spec fn prices<C: Fn(&[char]) -> Option<u64>>(
    cost: C,
    m: spec_fn(Seq<char>) -> Option<u64>,
) -> bool {
    forall|s: &[char], r: Option<u64>| #[trigger] call_ensures(cost, (s,), r) ==> r == m(s@)
}

/// Whether the caller makes something of every cost.
pub open spec fn priced<C: Fn(&[char]) -> Option<u64>>(cost: C) -> bool {
    forall|s: &[char]| #[trigger] call_requires(cost, (s,))
}

/// Where the columns stand.
pub struct Places {
    pub packet_id: usize,
    pub packet_bank: usize,
    pub tree_count: usize,
    pub block_cost: usize,
    pub tree_pos_list: usize,
}

/// The number that a text stands for, where it fits.
pub open spec fn position(s: Seq<char>) -> Option<u32> {
    match number(s, 10) {
        Some(v) => if v <= u32::MAX {
            Some(v as u32)
        } else {
            None
        },
        None => None,
    }
}

/// The numbers of the first `n` pieces; empty pieces count for nothing.
pub open spec fn positions(p: Seq<Seq<char>>, n: int) -> Option<Seq<u32>>
    decreases n,
{
    if n <= 0 {
        Some(Seq::empty())
    } else {
        match positions(p, n - 1) {
            None => None,
            Some(s) => if p[n - 1].len() == 0 {
                Some(s)
            } else {
                match position(p[n - 1]) {
                    Some(v) => Some(s.push(v)),
                    None => None,
                }
            },
        }
    }
}

proof fn lemma_positions_stop(p: Seq<Seq<char>>, n: int, k: int)
    requires
        n <= k,
        positions(p, n) is None,
    ensures
        positions(p, k) is None,
    decreases k - n,
{
    if n < k {
        lemma_positions_stop(p, n, k - 1);
    }
}

fn read_positions(s: &Vec<char>) -> (r: Option<Vec<u32>>)
    ensures
        ({
            let p = split(s@, ',');
            match positions(p, p.len() as int) {
                Some(v) => r matches Some(x) && x@ == v,
                None => r is None,
            }
        }),
{
    let parts: Vec<Vec<char>> = split_at_each(s.as_slice(), ',');
    let ghost p = split(s@, ',');
    let mut out: Vec<u32> = Vec::new();
    let mut i: usize = 0;
    assert(out@ =~= Seq::empty());
    while i < parts.len()
        invariant
            i <= parts@.len(),
            p == split(s@, ','),
            texts(parts@) == p,
            positions(p, i as int) == Some(out@),
        decreases parts@.len() - i,
    {
        let part: &Vec<char> = &parts[i];
        assert(p[i as int] == part@);
        if part.len() > 0 {
            let v: Option<usize> = read_number(part.as_slice(), 10);
            match v {
                Some(x) => {
                    if x > 0xffff_ffff {
                        proof {
                            lemma_positions_stop(p, i + 1, p.len() as int);
                        }
                        return None;
                    }
                    out.push(x as u32);
                },
                None => {
                    proof {
                        lemma_positions_stop(p, i + 1, p.len() as int);
                    }
                    return None;
                },
            }
        }
        i += 1;
    }
    Some(out)
}

/// The packet of one line, whose number is `line`.
pub open spec fn packet_of(
    m: spec_fn(Seq<char>) -> Option<u64>,
    at: Places,
    f: Seq<Seq<char>>,
    line: usize,
) -> Result<PacketView, TsvError> {
    let list = split(
        if at.tree_pos_list < f.len() {
            f[at.tree_pos_list as int]
        } else {
            Seq::empty()
        },
        ',',
    );
    if at.packet_id >= f.len() {
        Err(TsvError::Missing { line, column: Column::PacketId })
    } else if number(f[at.packet_id as int], 10) is None {
        Err(TsvError::Unreadable { line, column: Column::PacketId })
    } else if at.tree_count >= f.len() {
        Err(TsvError::Missing { line, column: Column::TreeCount })
    } else if number(f[at.tree_count as int], 10) is None {
        Err(TsvError::Unreadable { line, column: Column::TreeCount })
    } else if at.block_cost >= f.len() {
        Err(TsvError::Missing { line, column: Column::BlockCost })
    } else if m(f[at.block_cost as int]) is None {
        Err(TsvError::Unreadable { line, column: Column::BlockCost })
    } else if at.packet_bank >= f.len() {
        Err(TsvError::Missing { line, column: Column::PacketBank })
    } else if positions(list, list.len() as int) is None {
        Err(TsvError::Unreadable { line, column: Column::TreePosList })
    } else {
        Ok(
            PacketView {
                packet_id: number(f[at.packet_id as int], 10)->Some_0 as usize,
                bank_id: packet_bank(f[at.packet_bank as int]),
                tree_indices: positions(list, list.len() as int)->Some_0,
                tree_count: number(f[at.tree_count as int], 10)->Some_0 as usize,
                block_proxy: m(f[at.block_cost as int])->Some_0,
            },
        )
    }
}

fn read_bank(s: &Vec<char>) -> (r: i8)
    ensures
        r == packet_bank(s@),
{
    if chars_are(s, "scout") {
        2
    } else if chars_are(s, "reject") {
        1
    } else if chars_are(s, "refer") {
        0
    } else {
        -1
    }
}

fn read_packet<C: Fn(&[char]) -> Option<u64>>(
    cost: &C,
    at: &Places,
    f: &Vec<Vec<char>>,
    line: usize,
) -> (r: Result<LoadedPacket, TsvError>)
    requires
        priced(*cost),
    ensures
        r matches Ok(p) ==> p.compiled_pack is None,
        forall|m: spec_fn(Seq<char>) -> Option<u64>| #[trigger]
            prices(*cost, m) ==> match packet_of(m, *at, texts(f@), line) {
                Ok(v) => r matches Ok(p) && packet_view(p) == v,
                Err(e) => r == Err::<LoadedPacket, TsvError>(e),
            },
{
    let n: usize = f.len();
    if at.packet_id >= n {
        return Err(TsvError::Missing { line, column: Column::PacketId });
    }
    let packet_id: usize = match read_number(f[at.packet_id].as_slice(), 10) {
        Some(v) => v,
        None => {
            return Err(TsvError::Unreadable { line, column: Column::PacketId });
        },
    };
    if at.tree_count >= n {
        return Err(TsvError::Missing { line, column: Column::TreeCount });
    }
    let tree_count: usize = match read_number(f[at.tree_count].as_slice(), 10) {
        Some(v) => v,
        None => {
            return Err(TsvError::Unreadable { line, column: Column::TreeCount });
        },
    };
    if at.block_cost >= n {
        return Err(TsvError::Missing { line, column: Column::BlockCost });
    }
    let price: Option<u64> = cost(f[at.block_cost].as_slice());
    let block_proxy: u64 = match price {
        Some(v) => v,
        None => {
            return Err(TsvError::Unreadable { line, column: Column::BlockCost });
        },
    };
    if at.packet_bank >= n {
        return Err(TsvError::Missing { line, column: Column::PacketBank });
    }
    let bank_id: i8 = read_bank(&f[at.packet_bank]);
    let trees: Option<Vec<u32>> = if at.tree_pos_list < n {
        read_positions(&f[at.tree_pos_list])
    } else {
        let none: Vec<char> = Vec::new();
        assert(none@ =~= Seq::empty());
        read_positions(&none)
    };
    match trees {
        None => Err(TsvError::Unreadable { line, column: Column::TreePosList }),
        Some(tree_indices) => Ok(
            LoadedPacket {
                packet_id,
                bank_id,
                tree_indices,
                tree_count,
                block_proxy,
                compiled_pack: None,
            },
        ),
    }
}

/// The packets of the lines from the second to the `n`-th, blank ones left out.
pub open spec fn packets_of(
    m: spec_fn(Seq<char>) -> Option<u64>,
    at: Places,
    lines: Seq<Seq<char>>,
    n: int,
) -> Result<Seq<PacketView>, TsvError>
    decreases n,
{
    if n <= 1 {
        Ok(Seq::empty())
    } else {
        match packets_of(m, at, lines, n - 1) {
            Err(e) => Err(e),
            Ok(s) => if trimmed(lines[n - 1]).len() == 0 {
                Ok(s)
            } else {
                match packet_of(m, at, split(lines[n - 1], '\t'), (n - 1) as usize) {
                    Err(e) => Err(e),
                    Ok(p) => Ok(s.push(p)),
                }
            },
        }
    }
}

proof fn lemma_packets_stop(
    m: spec_fn(Seq<char>) -> Option<u64>,
    at: Places,
    lines: Seq<Seq<char>>,
    n: int,
    k: int,
)
    requires
        n <= k,
        packets_of(m, at, lines, n) is Err,
    ensures
        packets_of(m, at, lines, k) == packets_of(m, at, lines, n),
    decreases k - n,
{
    if n < k {
        lemma_packets_stop(m, at, lines, n, k - 1);
    }
}

/// The number of a packet.
pub open spec fn packet_number() -> spec_fn(PacketView) -> int {
    |p: PacketView| p.packet_id as int
}

/// Packets by number; those of one number stay in their turn.
pub open spec fn by_number(s: Seq<PacketView>) -> Seq<PacketView> {
    sorted(s, packet_number())
}

/// What packets hold.
pub open spec fn views(s: Seq<LoadedPacket>) -> Seq<PacketView> {
    Seq::new(s.len(), |i: int| packet_view(s[i]))
}

fn put_packet(list: &mut Vec<LoadedPacket>, p: LoadedPacket)
    ensures
        views(final(list)@) == put_in(views(old(list)@), packet_number(), packet_view(p)),
        final(list)@.len() == old(list)@.len() + 1,
        p.compiled_pack is None && (forall|i: int|
            0 <= i < old(list)@.len() ==> (#[trigger] old(list)@[i]).compiled_pack is None)
            ==> forall|i: int|
            0 <= i < final(list)@.len() ==> (#[trigger] final(list)@[i]).compiled_pack is None,
{
    let ghost before = list@;
    let ghost s = views(list@);
    let mut k: usize = list.len();
    while k > 0 && list[k - 1].packet_id > p.packet_id
        invariant
            k <= list@.len(),
            list@ == before,
            s == views(list@),
            place_for(s, packet_number(), p.packet_id as int, s.len() as int) == place_for(
                s,
                packet_number(),
                p.packet_id as int,
                k as int,
            ),
        decreases k,
    {
        k -= 1;
    }
    assert(place_for(s, packet_number(), p.packet_id as int, k as int) == k);
    list.insert(k, p);
    assert(list@ == before.insert(k as int, p));
    assert(views(list@) =~= s.insert(k as int, packet_view(p)));
    assert forall|i: int|
        p.compiled_pack is None && (forall|i: int|
            0 <= i < before.len() ==> (#[trigger] before[i]).compiled_pack is None) && 0 <= i
            < list@.len() implies (#[trigger] list@[i]).compiled_pack is None by {
        if i < k {
            assert(list@[i] == before[i]);
        } else if i > k {
            assert(list@[i] == before[i - 1]);
        }
    }
}

/// The packets that a file lists, by number.
pub open spec fn packets_listed(m: spec_fn(Seq<char>) -> Option<u64>, text: Seq<char>) -> Result<
    Seq<PacketView>,
    TsvError,
> {
    let lines = lines_of(text);
    let names = split(lines[0], '\t');
    let id = place_of_column(names, Column::PacketId);
    let bank = place_of_column(names, Column::PacketBank);
    let count = place_of_column(names, Column::TreeCount);
    let cost = place_of_column(names, Column::BlockCost);
    let list = place_of_column(names, Column::TreePosList);
    if lines.len() == 0 {
        Err(TsvError::NoHeader)
    } else if id is None {
        Err(TsvError::NoColumn { column: Column::PacketId })
    } else if bank is None {
        Err(TsvError::NoColumn { column: Column::PacketBank })
    } else if count is None {
        Err(TsvError::NoColumn { column: Column::TreeCount })
    } else if cost is None {
        Err(TsvError::NoColumn { column: Column::BlockCost })
    } else if list is None {
        Err(TsvError::NoColumn { column: Column::TreePosList })
    } else {
        match packets_of(
            m,
            Places {
                packet_id: id->Some_0 as usize,
                packet_bank: bank->Some_0 as usize,
                tree_count: count->Some_0 as usize,
                block_cost: cost->Some_0 as usize,
                tree_pos_list: list->Some_0 as usize,
            },
            lines,
            lines.len() as int,
        ) {
            Err(e) => Err(e),
            Ok(s) => Ok(by_number(s)),
        }
    }
}

/// Reads packets. What a cost comes to is asked of the caller.
pub fn load_packet_summary_tsv<C: Fn(&[char]) -> Option<u64>>(cost: &C, text: &str) -> (r: Result<
    Vec<LoadedPacket>,
    TsvError,
>)
    requires
        priced(*cost),
    ensures
        r matches Ok(v) ==> forall|i: int|
            0 <= i < v@.len() ==> (#[trigger] v@[i]).compiled_pack is None,
        forall|m: spec_fn(Seq<char>) -> Option<u64>| #[trigger]
            prices(*cost, m) ==> match packets_listed(m, text@) {
                Ok(s) => r matches Ok(v) && views(v@) == s,
                Err(e) => r == Err::<Vec<LoadedPacket>, TsvError>(e),
            },
{
    let all: Vec<char> = chars_of(text);
    let lines: Vec<Vec<char>> = cut_lines(all.as_slice());
    let ghost ls = lines_of(text@);
    if lines.len() == 0 {
        return Err(TsvError::NoHeader);
    }
    assert(ls[0] == lines@[0]@);
    let names: Vec<Vec<char>> = split_at_each(lines[0].as_slice(), '\t');
    let packet_id: usize = match find_column(&names, Column::PacketId) {
        Some(i) => i,
        None => {
            return Err(TsvError::NoColumn { column: Column::PacketId });
        },
    };
    let packet_bank: usize = match find_column(&names, Column::PacketBank) {
        Some(i) => i,
        None => {
            return Err(TsvError::NoColumn { column: Column::PacketBank });
        },
    };
    let tree_count: usize = match find_column(&names, Column::TreeCount) {
        Some(i) => i,
        None => {
            return Err(TsvError::NoColumn { column: Column::TreeCount });
        },
    };
    let block_cost: usize = match find_column(&names, Column::BlockCost) {
        Some(i) => i,
        None => {
            return Err(TsvError::NoColumn { column: Column::BlockCost });
        },
    };
    let tree_pos_list: usize = match find_column(&names, Column::TreePosList) {
        Some(i) => i,
        None => {
            return Err(TsvError::NoColumn { column: Column::TreePosList });
        },
    };
    let at: Places = Places { packet_id, packet_bank, tree_count, block_cost, tree_pos_list };
    let mut found: Vec<LoadedPacket> = Vec::new();
    let ghost mut listed: Seq<PacketView> = Seq::empty();
    let mut i: usize = 1;
    assert(views(found@) =~= by_number(listed));
    while i < lines.len()
        invariant
            1 <= i <= lines@.len(),
            priced(*cost),
            texts(lines@) == ls,
            views(found@) == by_number(listed),
            forall|k: int| 0 <= k < found@.len() ==> (#[trigger] found@[k]).compiled_pack is None,
            forall|m: spec_fn(Seq<char>) -> Option<u64>| #[trigger]
                prices(*cost, m) ==> packets_of(m, at, ls, i as int) == Ok::<
                    Seq<PacketView>,
                    TsvError,
                >(listed),
            forall|m: spec_fn(Seq<char>) -> Option<u64>| #[trigger]
                prices(*cost, m) ==> packets_listed(m, text@) == match packets_of(
                    m,
                    at,
                    ls,
                    ls.len() as int,
                ) {
                    Err(e) => Err::<Seq<PacketView>, TsvError>(e),
                    Ok(s) => Ok(by_number(s)),
                },
        decreases lines@.len() - i,
    {
        let line: &Vec<char> = &lines[i];
        assert(ls[i as int] == line@);
        let t: &[char] = trim(line.as_slice());
        if t.len() > 0 {
            let fields: Vec<Vec<char>> = split_at_each(line.as_slice(), '\t');
            match read_packet(cost, &at, &fields, i) {
                Err(e) => {
                    assert forall|m: spec_fn(Seq<char>) -> Option<u64>| #[trigger]
                        prices(*cost, m) implies packets_listed(m, text@) == Err::<
                        Seq<PacketView>,
                        TsvError,
                    >(e) by {
                        assert(packets_of(m, at, ls, i + 1) is Err);
                        lemma_packets_stop(m, at, ls, i + 1, ls.len() as int);
                    }
                    return Err(e);
                },
                Ok(p) => {
                    let ghost before = listed;
                    proof {
                        listed = listed.push(packet_view(p));
                        assert(listed.drop_last() =~= before);
                    }
                    put_packet(&mut found, p);
                },
            }
        }
        i += 1;
    }
    Ok(found)
}

/// A row of a policy as its file lists it.
#[derive(Debug)]
pub struct PacketPolicyFileRow {
    pub step: usize,
    pub tau_bin: usize,
    pub gap_regime: usize,
    pub delta_regime: usize,
    pub row_count: usize,
    pub ranking: Vec<usize>,
}

/// A policy as its file lists it.
#[derive(Debug)]
pub struct PacketSchedulerPolicyFile {
    pub format: String,
    pub n_packets: usize,
    pub max_steps: usize,
    pub tau_edges: Vec<u32>,
    pub gap_edges_by_step: Vec<Vec<u32>>,
    pub delta_edges_by_step: Vec<Vec<u32>>,
    pub policy_rows: Vec<PacketPolicyFileRow>,
}

/// Why packets and policy are not accepted.
#[derive(Clone, Copy, Debug, PartialEq, Eq, Structural)]
pub enum PacketError {
    Format,
    Ranking { packet: usize, packets: usize },
    Count { manifest: usize, loaded: usize },
    Compiled { packet: usize, packets: usize },
    PolicyCount { manifest: usize, policy: usize },
    PolicySteps { manifest: usize, policy: usize },
}

/// The first of the first `k` numbers that is not below `n`.
pub open spec fn stray(ranking: Seq<usize>, n: usize, k: int) -> Option<usize>
    decreases k,
{
    if k <= 0 {
        None
    } else {
        match stray(ranking, n, k - 1) {
            Some(x) => Some(x),
            None => if ranking[k - 1] >= n {
                Some(ranking[k - 1])
            } else {
                None
            },
        }
    }
}

/// The first stray number of the first `k` rows.
pub open spec fn stray_row(rows: Seq<PacketPolicyFileRow>, n: usize, k: int) -> Option<usize>
    decreases k,
{
    if k <= 0 {
        None
    } else {
        match stray_row(rows, n, k - 1) {
            Some(x) => Some(x),
            None => stray(rows[k - 1].ranking@, n, rows[k - 1].ranking@.len() as int),
        }
    }
}

proof fn lemma_stray_lasts(ranking: Seq<usize>, n: usize, k: int, j: int)
    requires
        k <= j,
        stray(ranking, n, k) is Some,
    ensures
        stray(ranking, n, j) == stray(ranking, n, k),
    decreases j - k,
{
    if k < j {
        lemma_stray_lasts(ranking, n, k, j - 1);
    }
}

proof fn lemma_stray_row_lasts(rows: Seq<PacketPolicyFileRow>, n: usize, k: int, j: int)
    requires
        k <= j,
        stray_row(rows, n, k) is Some,
    ensures
        stray_row(rows, n, j) == stray_row(rows, n, k),
    decreases j - k,
{
    if k < j {
        lemma_stray_row_lasts(rows, n, k, j - 1);
    }
}

/// Whether a row is one of a file, its numbers in sixteen bits.
pub open spec fn row_read(r: PacketPolicyRow, f: PacketPolicyFileRow) -> bool {
    &&& r.step == f.step
    &&& r.tau_bin == f.tau_bin
    &&& r.gap_regime == f.gap_regime
    &&& r.delta_regime == f.delta_regime
    &&& r.row_count == f.row_count
    &&& r.ranking@ == f.ranking@.map_values(|x: usize| x as u16)
}

fn read_ranking(ranking: &Vec<usize>, n: usize) -> (r: Result<Vec<u16>, PacketError>)
    ensures
        match stray(ranking@, n, ranking@.len() as int) {
            Some(x) => r == Err::<Vec<u16>, PacketError>(
                PacketError::Ranking { packet: x, packets: n },
            ),
            None => r matches Ok(v) && v@ == ranking@.map_values(|x: usize| x as u16),
        },
{
    let mut out: Vec<u16> = Vec::new();
    let ghost want = ranking@.map_values(|x: usize| x as u16);
    let mut i: usize = 0;
    while i < ranking.len()
        invariant
            i <= ranking@.len(),
            want == ranking@.map_values(|x: usize| x as u16),
            out@ == want.take(i as int),
            stray(ranking@, n, i as int) is None,
        decreases ranking@.len() - i,
    {
        if ranking[i] >= n {
            proof {
                lemma_stray_lasts(ranking@, n, i + 1, ranking@.len() as int);
            }
            return Err(PacketError::Ranking { packet: ranking[i], packets: n });
        }
        out.push(ranking[i] as u16);
        i += 1;
        assert(out@ =~= want.take(i as int));
    }
    assert(want.take(ranking@.len() as int) =~= want);
    Ok(out)
}

/// Takes a policy from its file. A ranking may only name packets that there are.
pub fn load_packet_policy_json(raw: PacketSchedulerPolicyFile) -> (r: Result<
    LoadedPacketPolicy,
    PacketError,
>)
    ensures
        if raw.format@ != "L2PacketSchedulerPolicyV1"@ {
            r == Err::<LoadedPacketPolicy, PacketError>(PacketError::Format)
        } else {
            match stray_row(raw.policy_rows@, raw.n_packets, raw.policy_rows@.len() as int) {
                Some(x) => r == Err::<LoadedPacketPolicy, PacketError>(
                    PacketError::Ranking { packet: x, packets: raw.n_packets },
                ),
                None => {
                    &&& r is Ok
                    &&& r->Ok_0.n_packets == raw.n_packets
                    &&& r->Ok_0.max_steps == raw.max_steps
                    &&& r->Ok_0.tau_edges == raw.tau_edges
                    &&& r->Ok_0.gap_edges_by_step == raw.gap_edges_by_step
                    &&& r->Ok_0.delta_edges_by_step == raw.delta_edges_by_step
                    &&& r->Ok_0.rows@.len() == raw.policy_rows@.len()
                    &&& forall|i: int|
                        0 <= i < raw.policy_rows@.len() ==> row_read(
                            #[trigger] r->Ok_0.rows@[i],
                            raw.policy_rows@[i],
                        )
                },
            }
        },
{
    if !same_text(raw.format.as_str(), "L2PacketSchedulerPolicyV1") {
        return Err(PacketError::Format);
    }
    let n: usize = raw.n_packets;
    let mut rows: Vec<PacketPolicyRow> = Vec::new();
    let mut i: usize = 0;
    while i < raw.policy_rows.len()
        invariant
            i <= raw.policy_rows@.len(),
            i == rows@.len(),
            n == raw.n_packets,
            raw.format@ == "L2PacketSchedulerPolicyV1"@,
            stray_row(raw.policy_rows@, n, i as int) is None,
            forall|k: int| 0 <= k < i ==> row_read(#[trigger] rows@[k], raw.policy_rows@[k]),
        decreases raw.policy_rows@.len() - i,
    {
        let f: &PacketPolicyFileRow = &raw.policy_rows[i];
        let ranking: Vec<u16> = match read_ranking(&f.ranking, n) {
            Ok(v) => v,
            Err(e) => {
                proof {
                    lemma_stray_row_lasts(
                        raw.policy_rows@,
                        n,
                        i + 1,
                        raw.policy_rows@.len() as int,
                    );
                }
                return Err(e);
            },
        };
        rows.push(
            PacketPolicyRow {
                step: f.step,
                tau_bin: f.tau_bin,
                gap_regime: f.gap_regime,
                delta_regime: f.delta_regime,
                row_count: f.row_count,
                ranking,
            },
        );
        i += 1;
    }
    Ok(
        LoadedPacketPolicy {
            n_packets: raw.n_packets,
            max_steps: raw.max_steps,
            tau_edges: raw.tau_edges,
            gap_edges_by_step: raw.gap_edges_by_step,
            delta_edges_by_step: raw.delta_edges_by_step,
            rows,
        },
    )
}

/// The form of its own that a packet is given.
#[derive(Debug)]
pub struct CompiledPacket {
    pub packet_id: usize,
    pub pack: PrefixPack,
}

/// The first of the first `k` forms that is for no packet.
pub open spec fn stray_form(forms: Seq<CompiledPacket>, n: nat, k: int) -> Option<usize>
    decreases k,
{
    if k <= 0 {
        None
    } else {
        match stray_form(forms, n, k - 1) {
            Some(x) => Some(x),
            None => if forms[k - 1].packet_id >= n {
                Some(forms[k - 1].packet_id)
            } else {
                None
            },
        }
    }
}

proof fn lemma_stray_form_lasts(forms: Seq<CompiledPacket>, n: nat, k: int, j: int)
    requires
        k <= j,
        stray_form(forms, n, k) is Some,
    ensures
        stray_form(forms, n, j) == stray_form(forms, n, k),
    decreases j - k,
{
    if k < j {
        lemma_stray_form_lasts(forms, n, k, j - 1);
    }
}

/// The packets once the first `k` forms were given out; of two forms for one place the later
/// counts.
pub open spec fn formed(packets: Seq<LoadedPacket>, forms: Seq<CompiledPacket>, k: int) -> Seq<
    LoadedPacket,
>
    decreases k,
{
    if k <= 0 {
        packets
    } else {
        let before = formed(packets, forms, k - 1);
        let at = forms[k - 1].packet_id as int;
        before.update(
            at,
            LoadedPacket { compiled_pack: Some(forms[k - 1].pack), ..before[at] },
        )
    }
}

/// What keeps packets, their forms and a policy from going together.
pub open spec fn scheduler_fault(
    format: Seq<char>,
    n_packets: usize,
    max_steps: usize,
    packets: Seq<LoadedPacket>,
    forms: Seq<CompiledPacket>,
    policy: LoadedPacketPolicy,
) -> Option<PacketError> {
    if format != "L2PrefixPacketManifestV1"@ {
        Some(PacketError::Format)
    } else if packets.len() != n_packets {
        Some(PacketError::Count { manifest: n_packets, loaded: packets.len() as usize })
    } else if stray_form(forms, packets.len(), forms.len() as int) is Some {
        Some(
            PacketError::Compiled {
                packet: stray_form(forms, packets.len(), forms.len() as int)->Some_0,
                packets: packets.len() as usize,
            },
        )
    } else if policy.n_packets != n_packets {
        Some(PacketError::PolicyCount { manifest: n_packets, policy: policy.n_packets })
    } else if policy.max_steps != max_steps {
        Some(PacketError::PolicySteps { manifest: max_steps, policy: policy.max_steps })
    } else {
        None
    }
}

/// Puts packets, their forms and a policy together.
#[verifier::loop_isolation(false)]
pub fn load_v4_packet_scheduler(
    format: &str,
    n_packets: usize,
    max_steps: usize,
    packets: Vec<LoadedPacket>,
    forms: Vec<CompiledPacket>,
    policy: LoadedPacketPolicy,
) -> (r: Result<LoadedPacketScheduler, PacketError>)
    ensures
        match scheduler_fault(format@, n_packets, max_steps, packets@, forms@, policy) {
            Some(e) => r == Err::<LoadedPacketScheduler, PacketError>(e),
            None => r matches Ok(s) && s.max_steps == max_steps && s.policy == policy && s.packets@
                == formed(packets@, forms@, forms@.len() as int),
        },
{
    if !same_text(format, "L2PrefixPacketManifestV1") {
        return Err(PacketError::Format);
    }
    if packets.len() != n_packets {
        return Err(PacketError::Count { manifest: n_packets, loaded: packets.len() });
    }
    let mut packets: Vec<LoadedPacket> = packets;
    let mut forms: Vec<CompiledPacket> = forms;
    let ghost first = packets@;
    let ghost all = forms@;
    let n: usize = packets.len();
    let mut i: usize = 0;
    while i < forms.len()
        invariant
            i <= forms@.len(),
            forms@ == all,
            n == n_packets,
            packets@.len() == n,
            first.len() == n,
            stray_form(all, n as nat, i as int) is None,
        decreases forms@.len() - i,
    {
        if forms[i].packet_id >= n {
            proof {
                lemma_stray_form_lasts(all, n as nat, i + 1, all.len() as int);
            }
            return Err(PacketError::Compiled { packet: forms[i].packet_id, packets: n });
        }
        i += 1;
    }
    if policy.n_packets != n_packets {
        return Err(PacketError::PolicyCount { manifest: n_packets, policy: policy.n_packets });
    }
    if policy.max_steps != max_steps {
        return Err(PacketError::PolicySteps { manifest: max_steps, policy: policy.max_steps });
    }
    let ghost mut given: int = 0;
    while forms.len() > 0
        invariant
            0 <= given <= all.len(),
            forms@ == all.skip(given),
            packets@.len() == n,
            first.len() == n,
            stray_form(all, n as nat, all.len() as int) is None,
            packets@ == formed(first, all, given),
        decreases forms@.len(),
    {
        let form: CompiledPacket = forms.remove(0);
        let at: usize = form.packet_id;
        proof {
            assert(form == all[given]);
            assert(all.skip(given).remove(0) =~= all.skip(given + 1));
            if stray_form(all, n as nat, given + 1) is Some {
                lemma_stray_form_lasts(all, n as nat, given + 1, all.len() as int);
            }
        }
        let ghost before = packets@;
        let mut one: LoadedPacket = packets.remove(at);
        one.compiled_pack = Some(form.pack);
        packets.insert(at, one);
        assert(packets@ =~= before.update(
            at as int,
            LoadedPacket { compiled_pack: Some(form.pack), ..before[at as int] },
        ));
        proof {
            given = given + 1;
        }
    }
    assert(given == all.len());
    Ok(LoadedPacketScheduler { max_steps, packets, policy })
}

} // verus!
