//! Parsers of the text fields of the update tab.

use crate::fota::nodes;
use crate::fota::nodes::MAX_NODES;
use crate::text;
use std::collections::BTreeSet;
use vstd::prelude::*;
use vstd::slice::slice_subrange;

verus! {

broadcast use vstd::std_specs::btree::group_btree_axioms;

/// What a field says, with the message where it says nothing.
pub open spec fn outcome<T>(result: Result<T, String>) -> Result<T, Seq<char>> {
    match result {
        Ok(v) => Ok(v),
        Err(e) => Err(e@),
    }
}

// == Node lists ===============================================================

/// The node id that a text names: a decimal number below `MAX_NODES`, white space around it
/// allowed.
pub open spec fn node_of(s: Seq<char>) -> Result<u16, Seq<char>> {
    match text::parse_unsigned(text::trimmed(s), u16::MAX as nat) {
        None => Err("bad node '"@ + text::trimmed(s) + "'"@),
        Some(n) => if n >= MAX_NODES {
            Err(
                "node "@ + text::decimal(n) + " out of range 0..="@ + text::decimal(
                    (MAX_NODES - 1) as nat,
                ),
            )
        } else {
            Ok(n as u16)
        },
    }
}

/// The node ids from `lo` to `hi`, both of them among them.
pub open spec fn range(lo: u16, hi: u16) -> Set<u16> {
    Set::new(|n: u16| lo <= n <= hi)
}

/// The node ids that one piece of a list names: none where it is blank, a range where it
/// holds a dash, else one.
pub open spec fn piece_nodes(piece: Seq<char>) -> Result<Set<u16>, Seq<char>> {
    let tok = text::trimmed(piece);
    let at = text::find(tok, '-');
    if tok.len() == 0 {
        Ok(Set::empty())
    } else if at < tok.len() {
        match (node_of(tok.take(at)), node_of(tok.skip(at + 1))) {
            (Err(e), _) => Err(e),
            (Ok(lo), Err(e)) => Err(e),
            (Ok(lo), Ok(hi)) => if lo > hi {
                Err("range '"@ + tok + "' is backwards"@)
            } else {
                Ok(range(lo, hi))
            },
        }
    } else {
        match node_of(tok) {
            Ok(n) => Ok(Set::empty().insert(n)),
            Err(e) => Err(e),
        }
    }
}

/// The node ids that pieces name together, or the message of the first that names none.
pub open spec fn pieces_nodes(pieces: Seq<Seq<char>>) -> Result<Set<u16>, Seq<char>>
    decreases pieces.len(),
{
    if pieces.len() == 0 {
        Ok(Set::empty())
    } else {
        match (pieces_nodes(pieces.drop_last()), piece_nodes(pieces.last())) {
            (Err(e), _) => Err(e),
            (Ok(before), Err(e)) => Err(e),
            (Ok(before), Ok(more)) => Ok(before.union(more)),
        }
    }
}

/// The node ids that a comma separated list names, in ascending order and each once, or the
/// message of the first piece that names none.
pub open spec fn node_list(s: Seq<char>) -> Result<Seq<u16>, Seq<char>> {
    match pieces_nodes(text::split(s, ',')) {
        Ok(set) => Ok(nodes::ascending(set)),
        Err(e) => Err(e),
    }
}

/// A node list, with its ids as a sequence.
pub open spec fn listed_outcome(result: Result<Vec<u16>, String>) -> Result<Seq<u16>, Seq<char>> {
    match result {
        Ok(ids) => Ok(ids@),
        Err(e) => Err(e@),
    }
}

/// The node id that characters name.
fn read_node(s: &[char]) -> (result: Result<u16, String>)
    ensures
        outcome(result) == node_of(s@),
{
    let tok = text::trim(s);
    match text::read_unsigned(tok, u16::MAX as u64) {
        None => {
            let mut e = "bad node '".to_owned();
            text::push_chars(&mut e, tok);
            e.append("'");
            Err(e)
        },
        Some(n) => {
            if n >= MAX_NODES as u64 {
                let mut e = "node ".to_owned();
                text::push_decimal(&mut e, n);
                e.append(" out of range 0..=");
                text::push_decimal(&mut e, MAX_NODES as u64 - 1);
                Err(e)
            } else {
                Ok(n as u16)
            }
        },
    }
}

/// The node id that a text names, a number below `MAX_NODES`.
pub fn parse_node(s: &str) -> (result: Result<u16, String>)
    ensures
        outcome(result) == node_of(s@),
{
    read_node(text::chars_of(s).as_slice())
}

/// Adds the ids from `lo` to `hi` to a set.
fn insert_range(set: &mut BTreeSet<u16>, lo: u16, hi: u16)
    requires
        lo <= hi < MAX_NODES,
    ensures
        final(set)@ == old(set)@.union(range(lo, hi)),
{
    let mut n: u16 = lo;
    assert(set@ =~= old(set)@.union(Set::new(|k: u16| lo <= k < n)));
    while n <= hi
        invariant
            lo <= n <= hi + 1,
            hi < MAX_NODES,
            set@ == old(set)@.union(Set::new(|k: u16| lo <= k < n)),
        decreases hi + 1 - n,
    {
        set.insert(n);
        n += 1;
        assert(set@ =~= old(set)@.union(Set::new(|k: u16| lo <= k < n)));
    }
    assert(set@ =~= old(set)@.union(range(lo, hi)));
}

/// Adds the node ids that one piece names to a set, or tells what is wrong with the piece.
fn read_piece(set: &mut BTreeSet<u16>, piece: &[char]) -> (result: Result<(), String>)
    ensures
        match piece_nodes(piece@) {
            Ok(more) => result is Ok && final(set)@ == old(set)@.union(more),
            Err(e) => result is Err && (result->Err_0)@ == e,
        },
{
    let tok = text::trim(piece);
    if tok.len() == 0 {
        assert(set@.union(Set::empty()) =~= set@);
        return Ok(());
    }
    let at: usize = text::find_char(tok, '-');
    if at < tok.len() {
        let a = slice_subrange(tok, 0, at);
        let b = slice_subrange(tok, at + 1, tok.len());
        assert(a@ =~= tok@.take(at as int));
        assert(b@ =~= tok@.skip(at + 1));
        let lo = match read_node(a) {
            Ok(n) => n,
            Err(e) => return Err(e),
        };
        let hi = match read_node(b) {
            Ok(n) => n,
            Err(e) => return Err(e),
        };
        if lo > hi {
            let mut e = "range '".to_owned();
            text::push_chars(&mut e, tok);
            e.append("' is backwards");
            return Err(e);
        }
        insert_range(set, lo, hi);
        Ok(())
    } else {
        match read_node(tok) {
            Ok(n) => {
                set.insert(n);
                assert(set@ =~= old(set)@.union(Set::empty().insert(n)));
                Ok(())
            },
            Err(e) => Err(e),
        }
    }
}

/// The node ids that a text field names: single ids, comma separated lists and inclusive
/// ranges, as in `0-3,5,8`. An empty field names none.
pub fn parse_node_spec(s: &str) -> (result: Result<Vec<u16>, String>)
    ensures
        listed_outcome(result) == node_list(s@),
{
    let chars = text::chars_of(s);
    let pieces = text::split_chars(chars.as_slice(), ',');
    let ghost all = text::split(s@, ',');
    let mut set: BTreeSet<u16> = BTreeSet::new();
    let mut i: usize = 0;
    while i < pieces.len()
        invariant
            i <= pieces.len(),
            all == text::split(s@, ','),
            text::shown(pieces@) == all,
            pieces_nodes(all.take(i as int)) == Ok::<Set<u16>, Seq<char>>(set@),
        decreases pieces.len() - i,
    {
        assert(all.take(i + 1).drop_last() =~= all.take(i as int));
        assert(all.take(i + 1).last() == pieces@[i as int]@);
        match read_piece(&mut set, pieces[i].as_slice()) {
            Ok(()) => {},
            Err(e) => {
                proof {
                    lemma_first_error_stays(all, i + 1);
                }
                return Err(e);
            },
        }
        i += 1;
    }
    assert(all.take(i as int) =~= all);
    Ok(nodes::ids_of(&set))
}

/// Once a piece names no node, the list names none.
proof fn lemma_first_error_stays(pieces: Seq<Seq<char>>, n: int)
    requires
        0 <= n <= pieces.len(),
        pieces_nodes(pieces.take(n)) is Err,
    ensures
        pieces_nodes(pieces) == pieces_nodes(pieces.take(n)),
    decreases pieces.len() - n,
{
    if n < pieces.len() {
        assert(pieces.take(n + 1).drop_last() =~= pieces.take(n));
        lemma_first_error_stays(pieces, n + 1);
    } else {
        assert(pieces.take(n) =~= pieces);
    }
}

/// A node list names node ids only, in ascending order and each once.
pub proof fn law_node_lists_are_ascending_nodes(s: Seq<char>)
    requires
        node_list(s) is Ok,
    ensures
        forall|i: int| 0 <= i < node_list(s)->Ok_0.len() ==> node_list(s)->Ok_0[i] < MAX_NODES,
        forall|i: int, j: int|
            0 <= i < j < node_list(s)->Ok_0.len() ==> node_list(s)->Ok_0[i] < node_list(s)->Ok_0[j],
{
    let set = pieces_nodes(text::split(s, ','))->Ok_0;
    nodes::lemma_listed(set, 0);
    let ids = node_list(s)->Ok_0;
    assert forall|i: int| 0 <= i < ids.len() implies ids[i] < MAX_NODES by {
        assert(ids.contains(ids[i]));
    }
}

/// Every node id that a piece names is below `MAX_NODES`.
proof fn lemma_piece_names_nodes(piece: Seq<char>)
    requires
        piece_nodes(piece) is Ok,
    ensures
        nodes::are_nodes(piece_nodes(piece)->Ok_0),
{
}

/// Every node id that pieces name is below `MAX_NODES`, so that the list holds them all.
pub proof fn law_pieces_name_nodes(pieces: Seq<Seq<char>>)
    requires
        pieces_nodes(pieces) is Ok,
    ensures
        nodes::are_nodes(pieces_nodes(pieces)->Ok_0),
    decreases pieces.len(),
{
    if pieces.len() > 0 {
        law_pieces_name_nodes(pieces.drop_last());
        lemma_piece_names_nodes(pieces.last());
    }
}

/// A text without a comma is one piece.
proof fn lemma_one_piece(s: Seq<char>)
    requires
        forall|i: int| 0 <= i < s.len() ==> s[i] != ',',
    ensures
        text::split(s, ',') == seq![s],
        pieces_nodes(text::split(s, ',')) == piece_nodes(s),
{
    text::lemma_find_is(s, ',', s.len() as int);
    let pieces = text::split(s, ',');
    assert(pieces.drop_last() =~= Seq::empty());
    reveal_with_fuel(pieces_nodes, 2);
    if piece_nodes(s) is Ok {
        assert(Set::<u16>::empty().union(piece_nodes(s)->Ok_0) =~= piece_nodes(s)->Ok_0);
    }
}

/// The number of a node names the node.
pub proof fn law_number_names_its_node(n: u16)
    requires
        n < MAX_NODES,
    ensures
        node_list(text::decimal(n as nat)) == Ok::<Seq<u16>, Seq<char>>(
            nodes::ascending(Set::empty().insert(n)),
        ),
{
    let s = text::decimal(n as nat);
    text::lemma_decimal_reads_back(n as nat);
    text::lemma_digits_are_trimmed(s);
    text::lemma_trimmed_decimal_reads_back(n as nat, u16::MAX as nat);
    assert forall|i: int| 0 <= i < s.len() implies s[i] != ',' && s[i] != '-' by {
        assert(text::is_digit(s[i]));
    }
    lemma_one_piece(s);
    text::lemma_find_is(s, '-', s.len() as int);
}

/// Two numbers with a dash between them name the nodes from the one to the other.
pub proof fn law_range_names_its_nodes(lo: u16, hi: u16)
    requires
        lo <= hi < MAX_NODES,
    ensures
        node_list(text::decimal(lo as nat) + "-"@ + text::decimal(hi as nat)) == Ok::<
            Seq<u16>,
            Seq<char>,
        >(nodes::ascending(range(lo, hi))),
{
    let a = text::decimal(lo as nat);
    let b = text::decimal(hi as nat);
    let s = a + "-"@ + b;
    reveal_strlit("-");
    text::lemma_decimal_reads_back(lo as nat);
    text::lemma_decimal_reads_back(hi as nat);
    text::lemma_trimmed_decimal_reads_back(lo as nat, u16::MAX as nat);
    text::lemma_trimmed_decimal_reads_back(hi as nat, u16::MAX as nat);
    assert forall|i: int| 0 <= i < s.len() implies s[i] != ',' && (i < a.len() ==> s[i] != '-') by {
        if i < a.len() {
            assert(text::is_digit(a[i]));
        } else if i > a.len() {
            assert(text::is_digit(b[i - a.len() - 1]));
        }
    }
    lemma_one_piece(s);
    assert(text::is_digit(a[0]));
    assert(text::is_digit(b.last()));
    assert(s[0] == a[0]);
    assert(s.last() == b.last());
    assert(text::trimmed(s) == s);
    text::lemma_find_is(s, '-', a.len() as int);
    assert(s.take(a.len() as int) =~= a);
    assert(s.skip(a.len() as int + 1) =~= b);
}

/// Pieces name together what the first of them and the rest of them name.
proof fn lemma_pieces_add_up(a: Seq<Seq<char>>, b: Seq<Seq<char>>)
    requires
        pieces_nodes(a) is Ok,
        pieces_nodes(b) is Ok,
    ensures
        pieces_nodes(a + b) == Ok::<Set<u16>, Seq<char>>(
            pieces_nodes(a)->Ok_0.union(pieces_nodes(b)->Ok_0),
        ),
    decreases b.len(),
{
    if b.len() == 0 {
        assert(a + b =~= a);
        assert(pieces_nodes(a)->Ok_0.union(Set::empty()) =~= pieces_nodes(a)->Ok_0);
    } else {
        lemma_pieces_add_up(a, b.drop_last());
        assert((a + b).drop_last() =~= a + b.drop_last());
        assert((a + b).last() == b.last());
        assert(pieces_nodes(a + b)->Ok_0 =~= pieces_nodes(a)->Ok_0.union(pieces_nodes(b)->Ok_0));
    }
}

/// Two lists with a comma between them name the nodes of both.
pub proof fn law_comma_joins_lists(a: Seq<char>, b: Seq<char>)
    requires
        node_list(a) is Ok,
        node_list(b) is Ok,
    ensures
        node_list(a + ","@ + b) == Ok::<Seq<u16>, Seq<char>>(
            nodes::ascending(node_list(a)->Ok_0.to_set().union(node_list(b)->Ok_0.to_set())),
        ),
{
    reveal_strlit(",");
    assert(a + ","@ + b =~= a.push(',') + b);
    text::law_split_at_a_separator(a, b, ',');
    let x = text::split(a, ',');
    let y = text::split(b, ',');
    lemma_pieces_add_up(x, y);
    law_pieces_name_nodes(x);
    law_pieces_name_nodes(y);
    nodes::law_ascending_lists_the_set(pieces_nodes(x)->Ok_0);
    nodes::law_ascending_lists_the_set(pieces_nodes(y)->Ok_0);
}

// == Version ==================================================================

/// The version that a text names: `MAJOR.MINOR`, the minor number zero where it is missing.
pub open spec fn version_of(s: Seq<char>) -> Result<(u8, u8), Seq<char>> {
    let at = text::find(s, '.');
    let major = text::parse_unsigned(text::trimmed(s.take(at)), u8::MAX as nat);
    let minor = if at < s.len() {
        text::parse_unsigned(text::trimmed(s.skip(at + 1)), u8::MAX as nat)
    } else {
        Some(0)
    };
    match (major, minor) {
        (None, _) => Err("bad version major in '"@ + s + "'"@),
        (Some(a), None) => Err("bad version minor in '"@ + s + "'"@),
        (Some(a), Some(b)) => Ok((a as u8, b as u8)),
    }
}

/// The message for a text that names no version, for its major or minor part.
fn bad_version(part: &str, s: &str) -> (e: String)
    ensures
        e@ == "bad version "@ + part@ + " in '"@ + s@ + "'"@,
{
    let mut e = "bad version ".to_owned();
    e.append(part);
    e.append(" in '");
    e.append(s);
    e.append("'");
    e
}

/// The version that a text names: `MAJOR.MINOR`, the minor number zero where it is missing.
pub fn parse_version(s: &str) -> (result: Result<(u8, u8), String>)
    ensures
        outcome(result) == version_of(s@),
{
    let chars = text::chars_of(s);
    let at: usize = text::find_char(chars.as_slice(), '.');
    let a = slice_subrange(chars.as_slice(), 0, at);
    assert(a@ =~= s@.take(at as int));
    let major = match text::read_unsigned(text::trim(a), u8::MAX as u64) {
        Some(n) => n as u8,
        None => {
            let e = bad_version("major", s);
            proof {
                reveal_strlit("bad version major in '");
                reveal_strlit("bad version ");
                reveal_strlit("major");
                reveal_strlit(" in '");
                assert(e@ =~= "bad version major in '"@ + s@ + "'"@);
            }
            return Err(e);
        },
    };
    if at == chars.len() {
        return Ok((major, 0));
    }
    let b = slice_subrange(chars.as_slice(), at + 1, chars.len());
    assert(b@ =~= s@.skip(at + 1));
    match text::read_unsigned(text::trim(b), u8::MAX as u64) {
        Some(n) => Ok((major, n as u8)),
        None => {
            let e = bad_version("minor", s);
            proof {
                reveal_strlit("bad version minor in '");
                reveal_strlit("bad version ");
                reveal_strlit("minor");
                reveal_strlit(" in '");
                assert(e@ =~= "bad version minor in '"@ + s@ + "'"@);
            }
            Err(e)
        },
    }
}

/// A version, written as it is shown, reads back as itself.
pub proof fn law_version_round_trip(major: u8, minor: u8)
    ensures
        version_of(text::decimal(major as nat) + "."@ + text::decimal(minor as nat)) == Ok::<
            (u8, u8),
            Seq<char>,
        >((major, minor)),
        version_of(text::decimal(major as nat)) == Ok::<(u8, u8), Seq<char>>((major, 0)),
{
    let a = text::decimal(major as nat);
    let b = text::decimal(minor as nat);
    let s = a + "."@ + b;
    reveal_strlit(".");
    text::lemma_decimal_reads_back(major as nat);
    text::lemma_trimmed_decimal_reads_back(major as nat, u8::MAX as nat);
    text::lemma_trimmed_decimal_reads_back(minor as nat, u8::MAX as nat);
    assert forall|i: int| 0 <= i < a.len() implies a[i] != '.' by {
        assert(text::is_digit(a[i]));
    }
    text::lemma_find_is(s, '.', a.len() as int);
    assert(s.take(a.len() as int) =~= a);
    assert(s.skip(a.len() as int + 1) =~= b);
    text::lemma_find_is(a, '.', a.len() as int);
    assert(a.take(a.len() as int) =~= a);
}

// == Laws of what a list names ================================================

/// A number names itself and no other node.
pub proof fn law_number_names_nothing_else(n: u16, m: u16)
    requires
        n < 64,
        m < 64,
    ensures
        node_list(text::decimal(n as nat)) is Ok,
        node_list(text::decimal(n as nat))->Ok_0.contains(m) <==> m == n,
{
    law_number_names_its_node(n);
    nodes::law_ascending_lists_the_set(Set::empty().insert(n));
    let ids = node_list(text::decimal(n as nat))->Ok_0;
    assert(ids.to_set().contains(m) <==> ids.contains(m));
}

/// A range names its two ends and what lies between them, and no other node.
pub proof fn law_range_has_both_ends(lo: u16, hi: u16, m: u16)
    requires
        lo <= hi < 64,
        m < 64,
    ensures
        ({
            let ids = node_list(text::decimal(lo as nat) + "-"@ + text::decimal(hi as nat));
            ids is Ok && (ids->Ok_0.contains(m) <==> lo <= m <= hi)
        }),
{
    law_range_names_its_nodes(lo, hi);
    nodes::law_ascending_lists_the_set(range(lo, hi));
    let ids = node_list(text::decimal(lo as nat) + "-"@ + text::decimal(hi as nat))->Ok_0;
    assert(ids.to_set().contains(m) <==> ids.contains(m));
}

/// Lists joined by a comma name what either of them names.
pub proof fn law_joined_lists_name_both(a: Seq<char>, b: Seq<char>, m: u16)
    requires
        node_list(a) is Ok,
        node_list(b) is Ok,
    ensures
        node_list(a + ","@ + b) is Ok,
        node_list(a + ","@ + b)->Ok_0.contains(m) <==> node_list(a)->Ok_0.contains(m) || node_list(
            b,
        )->Ok_0.contains(m),
{
    law_comma_joins_lists(a, b);
    law_node_lists_are_ascending_nodes(a);
    law_node_lists_are_ascending_nodes(b);
    let x = node_list(a)->Ok_0;
    let y = node_list(b)->Ok_0;
    let both = x.to_set().union(y.to_set());
    assert forall|n: u16| both.contains(n) implies n < MAX_NODES by {
        assert(x.contains(n) || y.contains(n));
    }
    nodes::law_ascending_lists_the_set(both);
    let ids = node_list(a + ","@ + b)->Ok_0;
    assert(ids.to_set().contains(m) <==> ids.contains(m));
    assert(x.to_set().contains(m) <==> x.contains(m));
    assert(y.to_set().contains(m) <==> y.contains(m));
}

/// A number of 64 or more is refused.
pub proof fn law_numbers_beyond_the_nodes_are_refused(n: u16)
    requires
        n >= 64,
    ensures
        node_of(text::decimal(n as nat)) == Err::<u16, Seq<char>>(
            "node "@ + text::decimal(n as nat) + " out of range 0..="@ + text::decimal(63),
        ),
        node_list(text::decimal(n as nat)) is Err,
{
    let s = text::decimal(n as nat);
    text::lemma_decimal_reads_back(n as nat);
    text::lemma_digits_are_trimmed(s);
    text::lemma_trimmed_decimal_reads_back(n as nat, u16::MAX as nat);
    assert forall|i: int| 0 <= i < s.len() implies s[i] != ',' && s[i] != '-' by {
        assert(text::is_digit(s[i]));
    }
    lemma_one_piece(s);
    text::lemma_find_is(s, '-', s.len() as int);
}

/// A range from a greater node to a lesser one is refused.
pub proof fn law_backward_range_is_refused(lo: u16, hi: u16)
    requires
        hi < lo < 64,
    ensures
        node_list(text::decimal(lo as nat) + "-"@ + text::decimal(hi as nat)) == Err::<
            Seq<u16>,
            Seq<char>,
        >("range '"@ + (text::decimal(lo as nat) + "-"@ + text::decimal(hi as nat))
            + "' is backwards"@),
{
    let a = text::decimal(lo as nat);
    let b = text::decimal(hi as nat);
    let s = a + "-"@ + b;
    reveal_strlit("-");
    text::lemma_decimal_reads_back(lo as nat);
    text::lemma_decimal_reads_back(hi as nat);
    text::lemma_trimmed_decimal_reads_back(lo as nat, u16::MAX as nat);
    text::lemma_trimmed_decimal_reads_back(hi as nat, u16::MAX as nat);
    assert forall|i: int| 0 <= i < s.len() implies s[i] != ',' && (i < a.len() ==> s[i] != '-') by {
        if i < a.len() {
            assert(text::is_digit(a[i]));
        } else if i > a.len() {
            assert(text::is_digit(b[i - a.len() - 1]));
        }
    }
    lemma_one_piece(s);
    assert(text::is_digit(a[0]));
    assert(text::is_digit(b.last()));
    assert(s[0] == a[0]);
    assert(s.last() == b.last());
    assert(text::trimmed(s) == s);
    text::lemma_find_is(s, '-', a.len() as int);
    assert(s.take(a.len() as int) =~= a);
    assert(s.skip(a.len() as int + 1) =~= b);
}

} // verus!
