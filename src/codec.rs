use vstd::prelude::*;
use vstd::string::StrSliceExecFns;
use crate::game::Game;
use crate::map::TileMap;
use crate::messages::{log_view, Message, MessageKind};
use crate::object::{Ai, Color, DeathCallback, Equipment, Fighter, Item, Object, Slot};
use crate::tile::Tile;

verus! {

// The saved game is a sequence of 64-bit words, each stored as eight bytes, least
// significant first. Integers are stored with an offset that makes them unsigned,
// enums by a tag, options by a 0 or 1 word before the value, and lists and strings by
// their length before their elements.

/// Relies on `char::from_u32`: the character with code point `u`, or `None` when `u`
/// is a surrogate or lies above `0x10FFFF`.
#[verifier::external_body]
fn char_from_u32(u: u32) -> (r: Option<char>)
    ensures
        r matches Some(c) ==> c == u as char && c as u32 == u,
        u <= 0xD7FF || (0xE000 <= u && u <= 0x10FFFF) ==> r is Some,
{
    char::from_u32(u)
}

/// `ws` holds `e` from position `pos` on.
pub open spec fn at(ws: Seq<u64>, pos: int, e: Seq<u64>) -> bool {
    0 <= pos && pos + e.len() <= ws.len() && ws.subrange(pos, pos + e.len()) == e
}

proof fn lemma_at_split(ws: Seq<u64>, pos: int, a: Seq<u64>, c: Seq<u64>)
    requires
        at(ws, pos, a + c),
    ensures
        at(ws, pos, a),
        at(ws, pos + a.len(), c),
{
    let whole = ws.subrange(pos, pos + a.len() + c.len());
    assert forall|i: int| 0 <= i < a.len() implies #[trigger] ws.subrange(pos, pos + a.len())[i] == a[i] by {
        assert(whole[i] == (a + c)[i]);
    }
    assert forall|i: int| 0 <= i < c.len() implies #[trigger] ws.subrange(pos + a.len(), pos + a.len() + c.len())[i] == c[i] by {
        assert(whole[a.len() + i] == (a + c)[a.len() + i]);
    }
    assert(ws.subrange(pos, pos + a.len()) =~= a);
    assert(ws.subrange(pos + a.len(), pos + a.len() + c.len()) =~= c);
}

proof fn lemma_at_join(ws: Seq<u64>, pos: int, a: Seq<u64>, c: Seq<u64>)
    requires
        at(ws, pos, a),
        at(ws, pos + a.len(), c),
    ensures
        at(ws, pos, a + c),
{
    assert forall|i: int| 0 <= i < (a + c).len() implies #[trigger] ws.subrange(pos, pos + (a + c).len())[i] == (a + c)[i] by {
        if i < a.len() {
            assert(ws.subrange(pos, pos + a.len())[i] == a[i]);
        } else {
            assert(ws.subrange(pos + a.len(), pos + a.len() + c.len())[i - a.len()] == c[i - a.len()]);
        }
    }
    assert(ws.subrange(pos, pos + (a + c).len()) =~= a + c);
}

proof fn lemma_at_words(ws: Seq<u64>, pos: int, e: Seq<u64>)
    requires
        0 <= pos,
        pos + e.len() <= ws.len(),
        forall|i: int| 0 <= i < e.len() ==> ws[pos + i] == #[trigger] e[i],
    ensures
        at(ws, pos, e),
{
    assert(ws.subrange(pos, pos + e.len()) =~= e);
}

proof fn lemma_at_word(ws: Seq<u64>, pos: int, e: Seq<u64>, i: int)
    requires
        at(ws, pos, e),
        0 <= i < e.len(),
    ensures
        ws[pos + i] == e[i],
{
    assert(ws.subrange(pos, pos + e.len())[i] == ws[pos + i]);
}

pub open spec fn w_i32(v: i32) -> u64 {
    (v + 0x8000_0000) as u64
}

pub open spec fn w_i64(v: i64) -> u64 {
    (v + 0x8000_0000_0000_0000) as u64
}

pub open spec fn w_bool(b: bool) -> u64 {
    if b { 1 } else { 0 }
}

pub open spec fn w_char(c: char) -> u64 {
    c as u32 as u64
}

/// The word at `pos`, and whether there is one.
fn word(ws: &Vec<u64>, pos: usize) -> (r: (u64, bool))
    ensures
        ws@.len() <= usize::MAX,
        r.1 == (pos < ws@.len()),
        r.1 ==> r.0 == ws@[pos as int],
{
    if pos < ws.len() { (ws[pos], true) } else { (0, false) }
}

fn i32_of(w: u64) -> (r: (i32, bool))
    ensures
        r.1 ==> w == w_i32(r.0),
        forall|v: i32| w == #[trigger] w_i32(v) ==> r == (v, true),
{
    if w <= 0xFFFF_FFFF { ((w as i64 - 0x8000_0000) as i32, true) } else { (0, false) }
}

fn i64_of(w: u64) -> (r: (i64, bool))
    ensures
        r.1 ==> w == w_i64(r.0),
        forall|v: i64| w == #[trigger] w_i64(v) ==> r == (v, true),
{
    ((w as i128 - 0x8000_0000_0000_0000) as i64, true)
}

fn bool_of(w: u64) -> (r: (bool, bool))
    ensures
        r.1 ==> w == w_bool(r.0),
        forall|v: bool| w == #[trigger] w_bool(v) ==> r == (v, true),
{
    if w == 0 { (false, true) } else if w == 1 { (true, true) } else { (false, false) }
}

fn char_of(w: u64) -> (r: (char, bool))
    ensures
        r.1 ==> w == w_char(r.0),
        forall|v: char| w == #[trigger] w_char(v) ==> r == (v, true),
{
    if w > 0xFFFF_FFFF {
        return (' ', false);
    }
    proof {
        assert forall|v: char| w == #[trigger] w_char(v) implies (w as u32 <= 0xD7FF || (0xE000 <= w as u32 && w as u32 <= 0x10FFFF)) by {
            vstd::utf8::char_is_scalar(v);
        }
    }
    match char_from_u32(w as u32) {
        Some(c) => {
            proof {
                assert forall|v: char| w == #[trigger] w_char(v) implies c == v by {
                    vstd::utf8::char_u32_cast(v, v as u32);
                }
            }
            (c, true)
        },
        None => (' ', false),
    }
}

pub open spec fn w_color(c: Color) -> u64 {
    match c {
        Color::White => 0,
        Color::DarkRed => 1,
        Color::DesaturatedGreen => 2,
        Color::DarkerGreen => 3,
        Color::Violet => 4,
        Color::LightYellow => 5,
        Color::Sky => 6,
    }
}

fn put_color(c: Color) -> (w: u64)
    ensures
        w == w_color(c),
{
    match c {
        Color::White => 0,
        Color::DarkRed => 1,
        Color::DesaturatedGreen => 2,
        Color::DarkerGreen => 3,
        Color::Violet => 4,
        Color::LightYellow => 5,
        Color::Sky => 6,
    }
}

fn color_of(w: u64) -> (r: (Color, bool))
    ensures
        r.1 ==> w == w_color(r.0),
        forall|v: Color| w == #[trigger] w_color(v) ==> r == (v, true),
{
    if w == 0 {
        (Color::White, true)
    } else if w == 1 {
        (Color::DarkRed, true)
    } else if w == 2 {
        (Color::DesaturatedGreen, true)
    } else if w == 3 {
        (Color::DarkerGreen, true)
    } else if w == 4 {
        (Color::Violet, true)
    } else if w == 5 {
        (Color::LightYellow, true)
    } else if w == 6 {
        (Color::Sky, true)
    } else {
        (Color::White, false)
    }
}

pub open spec fn w_death(d: DeathCallback) -> u64 {
    match d {
        DeathCallback::Player => 0,
        DeathCallback::Monster => 1,
    }
}

fn death_of(w: u64) -> (r: (DeathCallback, bool))
    ensures
        r.1 ==> w == w_death(r.0),
        forall|v: DeathCallback| w == #[trigger] w_death(v) ==> r == (v, true),
{
    if w == 0 {
        (DeathCallback::Player, true)
    } else if w == 1 {
        (DeathCallback::Monster, true)
    } else {
        (DeathCallback::Player, false)
    }
}

pub open spec fn w_item(i: Item) -> u64 {
    match i {
        Item::Heal => 0,
        Item::Lightning => 1,
        Item::Confuse => 2,
        Item::Fireball => 3,
        Item::Sword => 4,
        Item::Shield => 5,
    }
}

fn put_item(i: Item) -> (w: u64)
    ensures
        w == w_item(i),
{
    match i {
        Item::Heal => 0,
        Item::Lightning => 1,
        Item::Confuse => 2,
        Item::Fireball => 3,
        Item::Sword => 4,
        Item::Shield => 5,
    }
}

fn item_of(w: u64) -> (r: (Item, bool))
    ensures
        r.1 ==> w == w_item(r.0),
        forall|v: Item| w == #[trigger] w_item(v) ==> r == (v, true),
{
    if w == 0 {
        (Item::Heal, true)
    } else if w == 1 {
        (Item::Lightning, true)
    } else if w == 2 {
        (Item::Confuse, true)
    } else if w == 3 {
        (Item::Fireball, true)
    } else if w == 4 {
        (Item::Sword, true)
    } else if w == 5 {
        (Item::Shield, true)
    } else {
        (Item::Heal, false)
    }
}

pub open spec fn w_slot(s: Slot) -> u64 {
    match s {
        Slot::LeftHand => 0,
        Slot::RightHand => 1,
        Slot::Head => 2,
    }
}

fn put_slot(s: Slot) -> (w: u64)
    ensures
        w == w_slot(s),
{
    match s {
        Slot::LeftHand => 0,
        Slot::RightHand => 1,
        Slot::Head => 2,
    }
}

fn slot_of(w: u64) -> (r: (Slot, bool))
    ensures
        r.1 ==> w == w_slot(r.0),
        forall|v: Slot| w == #[trigger] w_slot(v) ==> r == (v, true),
{
    if w == 0 {
        (Slot::LeftHand, true)
    } else if w == 1 {
        (Slot::RightHand, true)
    } else if w == 2 {
        (Slot::Head, true)
    } else {
        (Slot::LeftHand, false)
    }
}

fn put_i32(v: i32) -> (w: u64)
    ensures
        w == w_i32(v),
{
    (v as i64 + 0x8000_0000) as u64
}

fn put_i64(v: i64) -> (w: u64)
    ensures
        w == w_i64(v),
{
    (v as i128 + 0x8000_0000_0000_0000) as u64
}

fn put_bool(b: bool) -> (w: u64)
    ensures
        w == w_bool(b),
{
    if b { 1 } else { 0 }
}

/// Relies on `String`'s `FromIterator<char>` (`collect`): the string of these
/// characters, in order.
#[verifier::external_body]
fn string_from_chars(cs: &Vec<char>) -> (s: String)
    ensures
        s@ == cs@,
{
    cs.iter().collect()
}

pub open spec fn enc_str(s: Seq<char>) -> Seq<u64> {
    seq![s.len() as u64] + s.map_values(|c: char| w_char(c))
}

fn put_str(out: &mut Vec<u64>, s: &String)
    ensures
        final(out)@ == old(out)@ + enc_str(s@),
{
    let n = s.as_str().unicode_len();
    out.push(n as u64);
    let mut i: usize = 0;
    while i < n
        invariant
            n == s@.len(),
            i <= n,
            out@ == old(out)@ + seq![n as u64] + s@.subrange(0, i as int).map_values(|c: char| w_char(c)),
        decreases n - i,
    {
        let c = s.as_str().get_char(i);
        out.push(c as u32 as u64);
        assert(s@.subrange(0, i + 1).map_values(|c: char| w_char(c))
            =~= s@.subrange(0, i as int).map_values(|c: char| w_char(c)).push(w_char(c)));
        i = i + 1;
    }
    assert(s@.subrange(0, n as int) =~= s@);
    assert(old(out)@ + seq![n as u64] + s@.map_values(|c: char| w_char(c)) =~= old(out)@ + enc_str(s@));
}

fn get_str(ws: &Vec<u64>, pos: usize) -> (r: (String, bool, usize))
    requires
        pos <= ws@.len(),
    ensures
        r.2 <= ws@.len(),
        forall|s: Seq<char>| #[trigger] at(ws@, pos as int, enc_str(s)) ==> r.0@ == s && r.1 && r.2 == pos + enc_str(s).len(),
        r.1 ==> at(ws@, pos as int, enc_str(r.0@)) && r.2 == pos + enc_str(r.0@).len(),
{
    let (n, ok) = word(ws, pos);
    if !ok || n > (ws.len() - pos - 1) as u64 {
        proof {
            assert forall|s: Seq<char>| #[trigger] at(ws@, pos as int, enc_str(s)) implies false by {
                lemma_at_word(ws@, pos as int, enc_str(s), 0);
            }
        }
        return (string_from_chars(&Vec::new()), false, pos);
    }
    proof {
        assert forall|s: Seq<char>| #[trigger] at(ws@, pos as int, enc_str(s)) implies n == s.len() by {
            lemma_at_word(ws@, pos as int, enc_str(s), 0);
        }
    }
    let mut chars: Vec<char> = Vec::new();
    let mut good = true;
    let mut i: usize = 0;
    while i < n as usize
        invariant
            pos + 1 + n <= ws@.len() <= usize::MAX,
            i <= n,
            forall|s: Seq<char>| #[trigger] at(ws@, pos as int, enc_str(s)) ==> n == s.len() && good
                && chars@ == s.subrange(0, i as int),
            chars@.len() == i,
            ws@[pos as int] == n,
            good ==> forall|j: int| 0 <= j < i ==> ws@[pos + 1 + j] == w_char(#[trigger] chars@[j]),
        decreases n - i,
    {
        let (c, okc) = char_of(ws[pos + 1 + i]);
        proof {
            assert forall|s: Seq<char>| #[trigger] at(ws@, pos as int, enc_str(s)) implies c == s[i as int] && okc by {
                lemma_at_word(ws@, pos as int, enc_str(s), i + 1);
            }
        }
        chars.push(c);
        good = good && okc;
        proof {
            assert forall|s: Seq<char>| #[trigger] at(ws@, pos as int, enc_str(s)) implies chars@ == s.subrange(0, i + 1) by {
                assert(chars@ =~= s.subrange(0, i + 1));
            }
        }
        i = i + 1;
    }
    proof {
        assert forall|s: Seq<char>| #[trigger] at(ws@, pos as int, enc_str(s)) implies chars@ == s by {
            assert(s.subrange(0, s.len() as int) =~= s);
        }
        if good {
            let e = enc_str(chars@);
            assert forall|i: int| 0 <= i < e.len() implies ws@[pos + i] == #[trigger] e[i] by {
                if i > 0 {
                    assert(e[i] == w_char(chars@[i - 1]));
                }
            }
            lemma_at_words(ws@, pos as int, e);
        }
    }
    (string_from_chars(&chars), good, pos + 1 + n as usize)
}

pub open spec fn enc_fighter(f: Fighter) -> Seq<u64> {
    seq![w_i32(f.base_max_hp), w_i32(f.hp), w_i32(f.base_defense), w_i32(f.base_power), w_i32(f.xp), w_death(f.on_death)]
}

pub open spec fn enc_opt_fighter(f: Option<Fighter>) -> Seq<u64> {
    match f {
        None => seq![0u64],
        Some(f) => seq![1u64] + enc_fighter(f),
    }
}

fn put_opt_fighter(out: &mut Vec<u64>, f: Option<Fighter>)
    ensures
        final(out)@ == old(out)@ + enc_opt_fighter(f),
{
    match f {
        None => out.push(0),
        Some(f) => {
            out.push(1);
            out.push(put_i32(f.base_max_hp));
            out.push(put_i32(f.hp));
            out.push(put_i32(f.base_defense));
            out.push(put_i32(f.base_power));
            out.push(put_i32(f.xp));
            out.push(match f.on_death { DeathCallback::Player => 0, DeathCallback::Monster => 1 });
            assert(out@ =~= old(out)@ + enc_opt_fighter(Some(f)));
        },
    }
}

fn get_opt_fighter(ws: &Vec<u64>, pos: usize) -> (r: (Option<Fighter>, bool, usize))
    requires
        pos <= ws@.len(),
    ensures
        r.2 <= ws@.len(),
        forall|f: Option<Fighter>| #[trigger] at(ws@, pos as int, enc_opt_fighter(f)) ==> r == (f, true, (pos + enc_opt_fighter(f).len()) as usize),
        r.1 ==> at(ws@, pos as int, enc_opt_fighter(r.0)) && r.2 == pos + enc_opt_fighter(r.0).len(),
{
    let (t, ok) = word(ws, pos);
    if ok && t == 0 {
        proof {
            assert forall|f: Option<Fighter>| #[trigger] at(ws@, pos as int, enc_opt_fighter(f)) implies f is None by {
                lemma_at_word(ws@, pos as int, enc_opt_fighter(f), 0);
            }
        }
        proof { lemma_at_words(ws@, pos as int, seq![0u64]); }
        return (None, true, pos + 1);
    }
    if !ok || t != 1 || ws.len() - pos < 7 {
        proof {
            assert forall|f: Option<Fighter>| #[trigger] at(ws@, pos as int, enc_opt_fighter(f)) implies false by {
                lemma_at_word(ws@, pos as int, enc_opt_fighter(f), 0);
            }
        }
        return (None, false, pos);
    }
    let (a, ok1) = i32_of(ws[pos + 1]);
    let (b, ok2) = i32_of(ws[pos + 2]);
    let (c, ok3) = i32_of(ws[pos + 3]);
    let (d, ok4) = i32_of(ws[pos + 4]);
    let (e, ok5) = i32_of(ws[pos + 5]);
    let (g, ok6) = death_of(ws[pos + 6]);
    let f = Fighter { base_max_hp: a, hp: b, base_defense: c, base_power: d, xp: e, on_death: g };
    proof {
        assert forall|x: Option<Fighter>| #[trigger] at(ws@, pos as int, enc_opt_fighter(x)) implies x == Some(f)
            && ok1 && ok2 && ok3 && ok4 && ok5 && ok6 by {
            lemma_at_word(ws@, pos as int, enc_opt_fighter(x), 0);
            lemma_at_word(ws@, pos as int, enc_opt_fighter(x), 1);
            lemma_at_word(ws@, pos as int, enc_opt_fighter(x), 2);
            lemma_at_word(ws@, pos as int, enc_opt_fighter(x), 3);
            lemma_at_word(ws@, pos as int, enc_opt_fighter(x), 4);
            lemma_at_word(ws@, pos as int, enc_opt_fighter(x), 5);
            lemma_at_word(ws@, pos as int, enc_opt_fighter(x), 6);
        }
        if ok1 && ok2 && ok3 && ok4 && ok5 && ok6 {
            let e = enc_opt_fighter(Some(f));
            assert forall|i: int| 0 <= i < e.len() implies ws@[pos + i] == #[trigger] e[i] by {}
            lemma_at_words(ws@, pos as int, e);
        }
    }
    (Some(f), ok1 && ok2 && ok3 && ok4 && ok5 && ok6, pos + 7)
}

pub open spec fn enc_opt_equipment(e: Option<Equipment>) -> Seq<u64> {
    match e {
        None => seq![0u64],
        Some(e) => seq![1u64, w_slot(e.slot), w_bool(e.equipped), w_i32(e.max_hp_bonus), w_i32(e.power_bonus), w_i32(e.defense_bonus)],
    }
}

fn put_opt_equipment(out: &mut Vec<u64>, e: Option<Equipment>)
    ensures
        final(out)@ == old(out)@ + enc_opt_equipment(e),
{
    match e {
        None => out.push(0),
        Some(e) => {
            out.push(1);
            out.push(put_slot(e.slot));
            out.push(put_bool(e.equipped));
            out.push(put_i32(e.max_hp_bonus));
            out.push(put_i32(e.power_bonus));
            out.push(put_i32(e.defense_bonus));
            assert(out@ =~= old(out)@ + enc_opt_equipment(Some(e)));
        },
    }
}

fn get_opt_equipment(ws: &Vec<u64>, pos: usize) -> (r: (Option<Equipment>, bool, usize))
    requires
        pos <= ws@.len(),
    ensures
        r.2 <= ws@.len(),
        forall|e: Option<Equipment>| #[trigger] at(ws@, pos as int, enc_opt_equipment(e)) ==> r == (e, true, (pos + enc_opt_equipment(e).len()) as usize),
        r.1 ==> at(ws@, pos as int, enc_opt_equipment(r.0)) && r.2 == pos + enc_opt_equipment(r.0).len(),
{
    let (t, ok) = word(ws, pos);
    if ok && t == 0 {
        proof {
            assert forall|e: Option<Equipment>| #[trigger] at(ws@, pos as int, enc_opt_equipment(e)) implies e is None by {
                lemma_at_word(ws@, pos as int, enc_opt_equipment(e), 0);
            }
        }
        proof { lemma_at_words(ws@, pos as int, seq![0u64]); }
        return (None, true, pos + 1);
    }
    if !ok || t != 1 || ws.len() - pos < 6 {
        proof {
            assert forall|e: Option<Equipment>| #[trigger] at(ws@, pos as int, enc_opt_equipment(e)) implies false by {
                lemma_at_word(ws@, pos as int, enc_opt_equipment(e), 0);
            }
        }
        return (None, false, pos);
    }
    let (slot, ok1) = slot_of(ws[pos + 1]);
    let (equipped, ok2) = bool_of(ws[pos + 2]);
    let (a, ok3) = i32_of(ws[pos + 3]);
    let (b, ok4) = i32_of(ws[pos + 4]);
    let (c, ok5) = i32_of(ws[pos + 5]);
    let e = Equipment { slot, equipped, max_hp_bonus: a, power_bonus: b, defense_bonus: c };
    proof {
        assert forall|x: Option<Equipment>| #[trigger] at(ws@, pos as int, enc_opt_equipment(x)) implies x == Some(e)
            && ok1 && ok2 && ok3 && ok4 && ok5 by {
            lemma_at_word(ws@, pos as int, enc_opt_equipment(x), 0);
            lemma_at_word(ws@, pos as int, enc_opt_equipment(x), 1);
            lemma_at_word(ws@, pos as int, enc_opt_equipment(x), 2);
            lemma_at_word(ws@, pos as int, enc_opt_equipment(x), 3);
            lemma_at_word(ws@, pos as int, enc_opt_equipment(x), 4);
            lemma_at_word(ws@, pos as int, enc_opt_equipment(x), 5);
        }
        if ok1 && ok2 && ok3 && ok4 && ok5 {
            let e = enc_opt_equipment(Some(e));
            assert forall|i: int| 0 <= i < e.len() implies ws@[pos + i] == #[trigger] e[i] by {}
            lemma_at_words(ws@, pos as int, e);
        }
    }
    (Some(e), ok1 && ok2 && ok3 && ok4 && ok5, pos + 6)
}

pub open spec fn enc_opt_item(i: Option<Item>) -> Seq<u64> {
    match i {
        None => seq![0u64],
        Some(i) => seq![1u64, w_item(i)],
    }
}

fn put_opt_item(out: &mut Vec<u64>, i: Option<Item>)
    ensures
        final(out)@ == old(out)@ + enc_opt_item(i),
{
    match i {
        None => out.push(0),
        Some(i) => {
            out.push(1);
            out.push(put_item(i));
            assert(out@ =~= old(out)@ + enc_opt_item(Some(i)));
        },
    }
}

fn get_opt_item(ws: &Vec<u64>, pos: usize) -> (r: (Option<Item>, bool, usize))
    requires
        pos <= ws@.len(),
    ensures
        r.2 <= ws@.len(),
        forall|i: Option<Item>| #[trigger] at(ws@, pos as int, enc_opt_item(i)) ==> r == (i, true, (pos + enc_opt_item(i).len()) as usize),
        r.1 ==> at(ws@, pos as int, enc_opt_item(r.0)) && r.2 == pos + enc_opt_item(r.0).len(),
{
    let (t, ok) = word(ws, pos);
    if ok && t == 0 {
        proof {
            assert forall|i: Option<Item>| #[trigger] at(ws@, pos as int, enc_opt_item(i)) implies i is None by {
                lemma_at_word(ws@, pos as int, enc_opt_item(i), 0);
            }
        }
        proof { lemma_at_words(ws@, pos as int, seq![0u64]); }
        return (None, true, pos + 1);
    }
    if !ok || t != 1 || ws.len() - pos < 2 {
        proof {
            assert forall|i: Option<Item>| #[trigger] at(ws@, pos as int, enc_opt_item(i)) implies false by {
                lemma_at_word(ws@, pos as int, enc_opt_item(i), 0);
            }
        }
        return (None, false, pos);
    }
    let (item, ok1) = item_of(ws[pos + 1]);
    proof {
        assert forall|x: Option<Item>| #[trigger] at(ws@, pos as int, enc_opt_item(x)) implies x == Some(item) && ok1 by {
            lemma_at_word(ws@, pos as int, enc_opt_item(x), 0);
            lemma_at_word(ws@, pos as int, enc_opt_item(x), 1);
        }
        if ok1 {
            let e = enc_opt_item(Some(item));
            assert forall|i: int| 0 <= i < e.len() implies ws@[pos + i] == #[trigger] e[i] by {}
            lemma_at_words(ws@, pos as int, e);
        }
    }
    (Some(item), ok1, pos + 2)
}

pub open spec fn enc_ai(a: Ai) -> Seq<u64>
    decreases a,
{
    match a {
        Ai::Basic => seq![0u64],
        Ai::Confused { previous_ai, num_turns } => seq![1u64, w_i32(num_turns)] + enc_ai(*previous_ai),
    }
}

fn put_ai(out: &mut Vec<u64>, a: &Ai)
    ensures
        final(out)@ == old(out)@ + enc_ai(*a),
    decreases a,
{
    match a {
        Ai::Basic => out.push(0),
        Ai::Confused { previous_ai, num_turns } => {
            out.push(1);
            out.push(put_i32(*num_turns));
            put_ai(out, &**previous_ai);
            assert(out@ =~= old(out)@ + enc_ai(*a));
        },
    }
}

fn get_ai(ws: &Vec<u64>, pos: usize) -> (r: (Ai, bool, usize))
    requires
        pos <= ws@.len(),
    ensures
        r.2 <= ws@.len(),
        forall|a: Ai| #[trigger] at(ws@, pos as int, enc_ai(a)) ==> r == (a, true, (pos + enc_ai(a).len()) as usize),
        r.1 ==> at(ws@, pos as int, enc_ai(r.0)) && r.2 == pos + enc_ai(r.0).len(),
    decreases ws@.len() - pos,
{
    let (t, ok) = word(ws, pos);
    if ok && t == 0 {
        proof {
            assert forall|a: Ai| #[trigger] at(ws@, pos as int, enc_ai(a)) implies a == Ai::Basic by {
                lemma_at_word(ws@, pos as int, enc_ai(a), 0);
            }
        }
        proof { lemma_at_words(ws@, pos as int, seq![0u64]); }
        return (Ai::Basic, true, pos + 1);
    }
    if !ok || t != 1 || ws.len() - pos < 2 {
        proof {
            assert forall|a: Ai| #[trigger] at(ws@, pos as int, enc_ai(a)) implies false by {
                lemma_at_word(ws@, pos as int, enc_ai(a), 0);
                if a is Confused {
                    lemma_at_word(ws@, pos as int, enc_ai(a), 1);
                }
            }
        }
        return (Ai::Basic, false, pos);
    }
    let (n, ok1) = i32_of(ws[pos + 1]);
    let (prev, ok2, next) = get_ai(ws, pos + 2);
    proof {
        assert forall|a: Ai| #[trigger] at(ws@, pos as int, enc_ai(a)) implies a == (Ai::Confused { previous_ai: Box::new(prev), num_turns: n })
            && ok1 && ok2 && next == pos + enc_ai(a).len() by {
            lemma_at_word(ws@, pos as int, enc_ai(a), 0);
            match a {
                Ai::Confused { previous_ai, num_turns } => {
                    lemma_at_split(ws@, pos as int, seq![1u64, w_i32(num_turns)], enc_ai(*previous_ai));
                    lemma_at_word(ws@, pos as int, seq![1u64, w_i32(num_turns)], 1);
                    assert(at(ws@, pos + 2, enc_ai(*previous_ai)));
                },
                Ai::Basic => {},
            }
        }
        if ok1 && ok2 {
            let h = seq![1u64, w_i32(n)];
            assert forall|i: int| 0 <= i < h.len() implies ws@[pos + i] == #[trigger] h[i] by {}
            lemma_at_words(ws@, pos as int, h);
            lemma_at_join(ws@, pos as int, h, enc_ai(prev));
            assert(enc_ai(Ai::Confused { previous_ai: Box::new(prev), num_turns: n }) == h + enc_ai(prev));
        }
    }
    (Ai::Confused { previous_ai: Box::new(prev), num_turns: n }, ok1 && ok2, next)
}

pub open spec fn enc_opt_ai(a: Option<Ai>) -> Seq<u64> {
    match a {
        None => seq![0u64],
        Some(a) => seq![1u64] + enc_ai(a),
    }
}

fn put_opt_ai(out: &mut Vec<u64>, a: &Option<Ai>)
    ensures
        final(out)@ == old(out)@ + enc_opt_ai(*a),
{
    match a {
        None => out.push(0),
        Some(a) => {
            out.push(1);
            put_ai(out, a);
            assert(out@ =~= old(out)@ + enc_opt_ai(Some(*a)));
        },
    }
}

fn get_opt_ai(ws: &Vec<u64>, pos: usize) -> (r: (Option<Ai>, bool, usize))
    requires
        pos <= ws@.len(),
    ensures
        r.2 <= ws@.len(),
        forall|a: Option<Ai>| #[trigger] at(ws@, pos as int, enc_opt_ai(a)) ==> r == (a, true, (pos + enc_opt_ai(a).len()) as usize),
        r.1 ==> at(ws@, pos as int, enc_opt_ai(r.0)) && r.2 == pos + enc_opt_ai(r.0).len(),
{
    let (t, ok) = word(ws, pos);
    if ok && t == 0 {
        proof {
            assert forall|a: Option<Ai>| #[trigger] at(ws@, pos as int, enc_opt_ai(a)) implies a is None by {
                lemma_at_word(ws@, pos as int, enc_opt_ai(a), 0);
            }
        }
        proof { lemma_at_words(ws@, pos as int, seq![0u64]); }
        return (None, true, pos + 1);
    }
    if !ok || t != 1 {
        proof {
            assert forall|a: Option<Ai>| #[trigger] at(ws@, pos as int, enc_opt_ai(a)) implies false by {
                lemma_at_word(ws@, pos as int, enc_opt_ai(a), 0);
            }
        }
        return (None, false, pos);
    }
    let (ai, ok1, next) = get_ai(ws, pos + 1);
    proof {
        assert forall|a: Option<Ai>| #[trigger] at(ws@, pos as int, enc_opt_ai(a)) implies a == Some(ai) && ok1
            && next == pos + enc_opt_ai(a).len() by {
            lemma_at_word(ws@, pos as int, enc_opt_ai(a), 0);
            if let Some(x) = a {
                lemma_at_split(ws@, pos as int, seq![1u64], enc_ai(x));
                assert(at(ws@, pos + 1, enc_ai(x)));
            }
        }
        if ok1 {
            lemma_at_words(ws@, pos as int, seq![1u64]);
            lemma_at_join(ws@, pos as int, seq![1u64], enc_ai(ai));
        }
    }
    (Some(ai), ok1, next)
}

pub open spec fn obj1(o: Object) -> Seq<u64> {
    seq![w_i32(o.x), w_i32(o.y), w_char(o.char), w_color(o.color)]
}

pub open spec fn obj2(o: Object) -> Seq<u64> {
    obj1(o) + enc_str(o.name@)
}

pub open spec fn obj3(o: Object) -> Seq<u64> {
    obj2(o) + seq![w_bool(o.blocks), w_bool(o.alive)]
}

pub open spec fn obj4(o: Object) -> Seq<u64> {
    obj3(o) + enc_opt_fighter(o.fighter)
}

pub open spec fn obj5(o: Object) -> Seq<u64> {
    obj4(o) + enc_opt_ai(o.ai)
}

pub open spec fn obj6(o: Object) -> Seq<u64> {
    obj5(o) + enc_opt_item(o.item)
}

pub open spec fn obj7(o: Object) -> Seq<u64> {
    obj6(o) + seq![w_bool(o.always_visible), w_i32(o.level)]
}

pub open spec fn obj8(o: Object) -> Seq<u64> {
    obj7(o) + enc_opt_equipment(o.equipment)
}

/// An entity's fields, one after the other.
pub open spec fn enc_object(o: Object) -> Seq<u64> {
    obj8(o) + seq![w_bool(o.is_player)]
}

proof fn lemma_object_at(ws: Seq<u64>, q: int, o: Object)
    requires
        at(ws, q, obj1(o)),
        at(ws, q + obj1(o).len(), enc_str(o.name@)),
        at(ws, q + obj2(o).len(), seq![w_bool(o.blocks), w_bool(o.alive)]),
        at(ws, q + obj3(o).len(), enc_opt_fighter(o.fighter)),
        at(ws, q + obj4(o).len(), enc_opt_ai(o.ai)),
        at(ws, q + obj5(o).len(), enc_opt_item(o.item)),
        at(ws, q + obj6(o).len(), seq![w_bool(o.always_visible), w_i32(o.level)]),
        at(ws, q + obj7(o).len(), enc_opt_equipment(o.equipment)),
        at(ws, q + obj8(o).len(), seq![w_bool(o.is_player)]),
    ensures
        at(ws, q, enc_object(o)),
{
    lemma_at_join(ws, q, obj1(o), enc_str(o.name@));
    lemma_at_join(ws, q, obj2(o), seq![w_bool(o.blocks), w_bool(o.alive)]);
    lemma_at_join(ws, q, obj3(o), enc_opt_fighter(o.fighter));
    lemma_at_join(ws, q, obj4(o), enc_opt_ai(o.ai));
    lemma_at_join(ws, q, obj5(o), enc_opt_item(o.item));
    lemma_at_join(ws, q, obj6(o), seq![w_bool(o.always_visible), w_i32(o.level)]);
    lemma_at_join(ws, q, obj7(o), enc_opt_equipment(o.equipment));
    lemma_at_join(ws, q, obj8(o), seq![w_bool(o.is_player)]);
}

/// The two entities hold the same values.
pub open spec fn same_object(a: Object, b: Object) -> bool {
    a.name@ == b.name@ && a == Object { name: a.name, ..b }
}

#[verifier::rlimit(60)]
fn put_object(out: &mut Vec<u64>, o: &Object)
    ensures
        final(out)@ == old(out)@ + enc_object(*o),
{
    out.push(put_i32(o.x));
    out.push(put_i32(o.y));
    out.push(o.char as u32 as u64);
    out.push(put_color(o.color));
    assert(out@ =~= old(out)@ + obj1(*o));
    put_str(out, &o.name);
    assert(out@ =~= old(out)@ + obj2(*o));
    out.push(put_bool(o.blocks));
    out.push(put_bool(o.alive));
    assert(out@ =~= old(out)@ + obj3(*o));
    put_opt_fighter(out, o.fighter);
    assert(out@ =~= old(out)@ + obj4(*o));
    put_opt_ai(out, &o.ai);
    assert(out@ =~= old(out)@ + obj5(*o));
    put_opt_item(out, o.item);
    assert(out@ =~= old(out)@ + obj6(*o));
    out.push(put_bool(o.always_visible));
    out.push(put_i32(o.level));
    assert(out@ =~= old(out)@ + obj7(*o));
    put_opt_equipment(out, o.equipment);
    assert(out@ =~= old(out)@ + obj8(*o));
    out.push(put_bool(o.is_player));
    assert(out@ =~= old(out)@ + enc_object(*o));
}

#[verifier::rlimit(100)]
fn get_object(ws: &Vec<u64>, pos: usize) -> (r: (Object, bool, usize))
    requires
        pos <= ws@.len(),
    ensures
        r.2 <= ws@.len(),
        forall|o: Object| #[trigger] at(ws@, pos as int, enc_object(o)) ==> same_object(r.0, o) && r.1
            && r.2 == pos + enc_object(o).len(),
        r.1 ==> at(ws@, pos as int, enc_object(r.0)) && r.2 == pos + enc_object(r.0).len(),
{
    let ghost wv = ws@;
    let (_, ok0) = word(ws, pos);
    if !ok0 || ws.len() - pos < 4 {
        proof {
            assert forall|o: Object| #[trigger] at(ws@, pos as int, enc_object(o)) implies false by {
                assert(enc_object(o).len() >= 4);
            }
        }
        return (crate::object::Object::new(0, 0, ' ', "", Color::White, false), false, pos);
    }
    let (x, ok1) = i32_of(ws[pos]);
    let (y, ok2) = i32_of(ws[pos + 1]);
    let (ch, ok3) = char_of(ws[pos + 2]);
    let (color, ok4) = color_of(ws[pos + 3]);
    let (name, ok5, c1) = get_str(ws, pos + 4);
    let has_b = ws.len() - c1 >= 2;
    let (b1, b2) = if has_b { (ws[c1], ws[c1 + 1]) } else { (0, 0) };
    let (blocks, ok6) = bool_of(b1);
    let (alive, ok7) = bool_of(b2);
    let c2 = if has_b { c1 + 2 } else { c1 };
    let (fighter, ok8, c3) = get_opt_fighter(ws, c2);
    let (ai, ok9, c4) = get_opt_ai(ws, c3);
    let (item, ok10, c5) = get_opt_item(ws, c4);
    let has_v = ws.len() - c5 >= 2;
    let (v1, v2) = if has_v { (ws[c5], ws[c5 + 1]) } else { (0, 0) };
    let (always_visible, ok11) = bool_of(v1);
    let (level, ok12) = i32_of(v2);
    let c6 = if has_v { c5 + 2 } else { c5 };
    let (equipment, ok13, c7) = get_opt_equipment(ws, c6);
    let has_p = c7 < ws.len();
    let pl = if has_p { ws[c7] } else { 0 };
    let (is_player, ok14) = bool_of(pl);
    let ok = ok1 && ok2 && ok3 && ok4 && ok5 && has_b && ok6 && ok7 && ok8 && ok9 && ok10 && has_v && ok11 && ok12
        && ok13 && has_p && ok14;
    let next = if has_p { c7 + 1 } else { c7 };
    let obj = Object {
        x,
        y,
        char: ch,
        color,
        name,
        blocks,
        alive,
        fighter,
        ai,
        item,
        always_visible,
        level,
        equipment,
        is_player,
    };
    proof {
        assert forall|o: Object| #[trigger] at(wv, pos as int, enc_object(o)) implies same_object(obj, o) && ok
            && next == pos + enc_object(o).len() by {
            let q = pos as int;
            lemma_at_split(wv, q, obj8(o), seq![w_bool(o.is_player)]);
            lemma_at_split(wv, q, obj7(o), enc_opt_equipment(o.equipment));
            lemma_at_split(wv, q, obj6(o), seq![w_bool(o.always_visible), w_i32(o.level)]);
            lemma_at_split(wv, q, obj5(o), enc_opt_item(o.item));
            lemma_at_split(wv, q, obj4(o), enc_opt_ai(o.ai));
            lemma_at_split(wv, q, obj3(o), enc_opt_fighter(o.fighter));
            lemma_at_split(wv, q, obj2(o), seq![w_bool(o.blocks), w_bool(o.alive)]);
            lemma_at_split(wv, q, obj1(o), enc_str(o.name@));
            lemma_at_word(wv, q, obj1(o), 0);
            lemma_at_word(wv, q, obj1(o), 1);
            lemma_at_word(wv, q, obj1(o), 2);
            lemma_at_word(wv, q, obj1(o), 3);
            assert(at(wv, q + 4, enc_str(o.name@)));
            assert(c1 == q + obj2(o).len());
            lemma_at_word(wv, q + obj2(o).len(), seq![w_bool(o.blocks), w_bool(o.alive)], 0);
            lemma_at_word(wv, q + obj2(o).len(), seq![w_bool(o.blocks), w_bool(o.alive)], 1);
            assert(c2 == q + obj3(o).len());
            assert(c3 == q + obj4(o).len());
            assert(c4 == q + obj5(o).len());
            assert(c5 == q + obj6(o).len());
            lemma_at_word(wv, q + obj6(o).len(), seq![w_bool(o.always_visible), w_i32(o.level)], 0);
            lemma_at_word(wv, q + obj6(o).len(), seq![w_bool(o.always_visible), w_i32(o.level)], 1);
            assert(c6 == q + obj7(o).len());
            assert(c7 == q + obj8(o).len());
            lemma_at_word(wv, q + obj8(o).len(), seq![w_bool(o.is_player)], 0);
        }
        if ok {
            let q = pos as int;
            let o = obj;
            let h = seq![w_i32(o.x), w_i32(o.y), w_char(o.char), w_color(o.color)];
            assert forall|i: int| 0 <= i < h.len() implies wv[q + i] == #[trigger] h[i] by {}
            lemma_at_words(wv, q, h);
            let b = seq![w_bool(o.blocks), w_bool(o.alive)];
            assert forall|i: int| 0 <= i < b.len() implies wv[c1 + i] == #[trigger] b[i] by {}
            lemma_at_words(wv, c1 as int, b);
            let v = seq![w_bool(o.always_visible), w_i32(o.level)];
            assert forall|i: int| 0 <= i < v.len() implies wv[c5 + i] == #[trigger] v[i] by {}
            lemma_at_words(wv, c5 as int, v);
            let l = seq![w_bool(o.is_player)];
            assert forall|i: int| 0 <= i < l.len() implies wv[c7 + i] == #[trigger] l[i] by {}
            lemma_at_words(wv, c7 as int, l);
            lemma_object_at(wv, q, o);
        }
    }
    (obj, ok, next)
}

/// The encodings of the elements of `s`, one after the other.
pub open spec fn enc_each<T>(s: Seq<T>, f: spec_fn(T) -> Seq<u64>) -> Seq<u64>
    decreases s.len(),
{
    if s.len() == 0 {
        Seq::empty()
    } else {
        enc_each(s.drop_last(), f) + f(s.last())
    }
}

proof fn lemma_each_step<T>(s: Seq<T>, f: spec_fn(T) -> Seq<u64>, k: int)
    requires
        0 <= k < s.len(),
    ensures
        enc_each(s.subrange(0, k + 1), f) == enc_each(s.subrange(0, k), f) + f(s[k]),
{
    assert(s.subrange(0, k + 1).drop_last() =~= s.subrange(0, k));
}

proof fn lemma_each_push<T>(s: Seq<T>, f: spec_fn(T) -> Seq<u64>, x: T)
    ensures
        enc_each(s.push(x), f) == enc_each(s, f) + f(x),
{
    assert(s.push(x).drop_last() =~= s);
}

proof fn lemma_each_len<T>(s: Seq<T>, f: spec_fn(T) -> Seq<u64>)
    requires
        forall|x: T| #[trigger] f(x).len() >= 1,
    ensures
        enc_each(s, f).len() >= s.len(),
    decreases s.len(),
{
    if s.len() > 0 {
        lemma_each_len(s.drop_last(), f);
    }
}

proof fn lemma_at_each_prefix<T>(ws: Seq<u64>, pos: int, s: Seq<T>, f: spec_fn(T) -> Seq<u64>, k: int)
    requires
        at(ws, pos, enc_each(s, f)),
        0 <= k <= s.len(),
    ensures
        at(ws, pos, enc_each(s.subrange(0, k), f)),
    decreases s.len() - k,
{
    if k == s.len() {
        assert(s.subrange(0, k) =~= s);
    } else {
        lemma_at_each_prefix(ws, pos, s, f, k + 1);
        lemma_each_step(s, f, k);
        lemma_at_split(ws, pos, enc_each(s.subrange(0, k), f), f(s[k]));
    }
}

pub open spec fn object_enc() -> spec_fn(Object) -> Seq<u64> {
    |o: Object| enc_object(o)
}

/// A list of entities: its length, then each entity.
pub open spec fn enc_objects(s: Seq<Object>) -> Seq<u64> {
    seq![s.len() as u64] + enc_each(s, object_enc())
}

/// The two lists hold entities with the same values.
pub open spec fn same_objects(a: Seq<Object>, b: Seq<Object>) -> bool {
    a.len() == b.len() && forall|i: int| 0 <= i < a.len() ==> same_object(#[trigger] a[i], b[i])
}

fn put_objects(out: &mut Vec<u64>, objects: &Vec<Object>)
    ensures
        final(out)@ == old(out)@ + enc_objects(objects@),
{
    out.push(objects.len() as u64);
    let mut i: usize = 0;
    while i < objects.len()
        invariant
            i <= objects@.len(),
            out@ == old(out)@ + seq![objects@.len() as u64] + enc_each(objects@.subrange(0, i as int), object_enc()),
        decreases objects@.len() - i,
    {
        put_object(out, &objects[i]);
        proof { lemma_each_step(objects@, object_enc(), i as int); }
        i = i + 1;
    }
    assert(objects@.subrange(0, i as int) =~= objects@);
}

fn get_objects(ws: &Vec<u64>, pos: usize) -> (r: (Vec<Object>, bool, usize))
    requires
        pos <= ws@.len(),
    ensures
        r.2 <= ws@.len(),
        r.1 ==> at(ws@, pos as int, enc_objects(r.0@)) && r.2 == pos + enc_objects(r.0@).len(),
        forall|s: Seq<Object>| #[trigger] at(ws@, pos as int, enc_objects(s)) ==> same_objects(r.0@, s) && r.1
            && r.2 == pos + enc_objects(s).len(),
{
    let (n, ok) = word(ws, pos);
    if !ok || n > (ws.len() - pos - 1) as u64 {
        proof {
            assert forall|x: Object| #[trigger] object_enc()(x).len() >= 1 by {}
            assert forall|s: Seq<Object>| #[trigger] at(ws@, pos as int, enc_objects(s)) implies false by {
                lemma_at_word(ws@, pos as int, enc_objects(s), 0);
                lemma_each_len(s, object_enc());
            }
        }
        return (Vec::new(), false, pos);
    }
    proof {
        assert forall|x: Object| #[trigger] object_enc()(x).len() >= 1 by {}
        assert forall|s: Seq<Object>| #[trigger] at(ws@, pos as int, enc_objects(s)) implies n == s.len() by {
            lemma_at_word(ws@, pos as int, enc_objects(s), 0);
            lemma_each_len(s, object_enc());
        }
    }
    let mut out: Vec<Object> = Vec::new();
    let mut good = true;
    let mut p: usize = pos + 1;
    let mut i: usize = 0;
    proof {
        assert(out@ =~= Seq::empty());
        lemma_at_words(ws@, pos + 1, Seq::empty());
    }
    while i < n as usize
        invariant
            pos + 1 + n <= ws@.len() <= usize::MAX,
            i <= n,
            p <= ws@.len(),
            out@.len() == i,
            ws@[pos as int] == n,
            good ==> at(ws@, pos + 1, enc_each(out@, object_enc())) && p == pos + 1 + enc_each(out@, object_enc()).len(),
            forall|s: Seq<Object>| #[trigger] at(ws@, pos as int, enc_objects(s)) ==> n == s.len() && good
                && (forall|j: int| 0 <= j < i ==> same_object(#[trigger] out@[j], s[j])) && p == pos + 1 + enc_each(s.subrange(0, i as int), object_enc()).len(),
        decreases n - i,
    {
        let (x, okx, q) = get_object(ws, p);
        proof {
            assert forall|s: Seq<Object>| #[trigger] at(ws@, pos as int, enc_objects(s)) implies at(ws@, p as int, object_enc()(s[i as int])) by {
                lemma_at_split(ws@, pos as int, seq![s.len() as u64], enc_each(s, object_enc()));
                lemma_at_each_prefix(ws@, pos + 1, s, object_enc(), i + 1);
                lemma_each_step(s, object_enc(), i as int);
                lemma_at_split(ws@, pos + 1, enc_each(s.subrange(0, i as int), object_enc()), object_enc()(s[i as int]));
            }
        }
        let ghost p_old = p;
        let ghost good_old = good;
        let ghost out_old = out@;
        let ghost xv = x;
        out.push(x);
        good = good && okx;
        p = q;
        proof {
            assert forall|s: Seq<Object>| #[trigger] at(ws@, pos as int, enc_objects(s)) implies (forall|j: int| 0 <= j < i + 1 ==> same_object(#[trigger] out@[j], s[j])) && good
                && p == pos + 1 + enc_each(s.subrange(0, i + 1), object_enc()).len() by {
                lemma_each_step(s, object_enc(), i as int);
                assert(at(ws@, p_old as int, object_enc()(s[i as int])));
                assert(good_old);
            }
        }
        proof {
            if good {
                assert(out@ =~= out_old.push(xv));
                lemma_each_push(out_old, object_enc(), xv);
                lemma_at_join(ws@, pos + 1, enc_each(out_old, object_enc()), object_enc()(xv));
            }
        }
        i = i + 1;
    }
    proof {
        assert forall|s: Seq<Object>| #[trigger] at(ws@, pos as int, enc_objects(s)) implies same_objects(out@, s)
            && p == pos + enc_objects(s).len() by {
            assert(s.subrange(0, s.len() as int) =~= s);
        }
    }
    proof {
        if good {
            lemma_at_words(ws@, pos as int, seq![n]);
            assert(seq![n] == seq![out@.len() as u64]);
            lemma_at_join(ws@, pos as int, seq![n], enc_each(out@, object_enc()));
        }
    }
    (out, good, p)
}

pub open spec fn tile_enc() -> spec_fn(Tile) -> Seq<u64> {
    |t: Tile| seq![w_bool(t.blocked), w_bool(t.block_sight), w_bool(t.explored)]
}

/// A column of the map: its length, then each cell.
pub open spec fn enc_tiles(s: Seq<Tile>) -> Seq<u64> {
    seq![s.len() as u64] + enc_each(s, tile_enc())
}

fn put_tiles(out: &mut Vec<u64>, tiles: &Vec<Tile>)
    ensures
        final(out)@ == old(out)@ + enc_tiles(tiles@),
{
    out.push(tiles.len() as u64);
    let mut i: usize = 0;
    while i < tiles.len()
        invariant
            i <= tiles@.len(),
            out@ == old(out)@ + seq![tiles@.len() as u64] + enc_each(tiles@.subrange(0, i as int), tile_enc()),
        decreases tiles@.len() - i,
    {
        let ghost before = out@;
        let t = tiles[i];
        out.push(put_bool(t.blocked));
        out.push(put_bool(t.block_sight));
        out.push(put_bool(t.explored));
        proof { lemma_each_step(tiles@, tile_enc(), i as int); }
        assert(out@ =~= before + tile_enc()(t));
        i = i + 1;
    }
    assert(tiles@.subrange(0, i as int) =~= tiles@);
}

fn get_tile(ws: &Vec<u64>, pos: usize) -> (r: (Tile, bool, usize))
    requires
        pos <= ws@.len(),
    ensures
        r.2 <= ws@.len(),
        forall|t: Tile| #[trigger] at(ws@, pos as int, tile_enc()(t)) ==> r.0 == t && r.1 && r.2 == pos + 3,
        r.1 ==> at(ws@, pos as int, tile_enc()(r.0)) && r.2 == pos + 3,
{
    if ws.len() - pos < 3 {
        return (Tile::wall(), false, pos);
    }
    let (blocked, ok1) = bool_of(ws[pos]);
    let (block_sight, ok2) = bool_of(ws[pos + 1]);
    let (explored, ok3) = bool_of(ws[pos + 2]);
    let t = Tile { blocked, block_sight, explored };
    proof {
        assert forall|x: Tile| #[trigger] at(ws@, pos as int, tile_enc()(x)) implies x == t && ok1 && ok2 && ok3 by {
            lemma_at_word(ws@, pos as int, tile_enc()(x), 0);
            lemma_at_word(ws@, pos as int, tile_enc()(x), 1);
            lemma_at_word(ws@, pos as int, tile_enc()(x), 2);
        }
        if ok1 && ok2 && ok3 {
            let e = tile_enc()(t);
            assert forall|i: int| 0 <= i < e.len() implies ws@[pos + i] == #[trigger] e[i] by {}
            lemma_at_words(ws@, pos as int, e);
        }
    }
    (t, ok1 && ok2 && ok3, pos + 3)
}

fn get_tiles(ws: &Vec<u64>, pos: usize) -> (r: (Vec<Tile>, bool, usize))
    requires
        pos <= ws@.len(),
    ensures
        r.2 <= ws@.len(),
        r.1 ==> at(ws@, pos as int, enc_tiles(r.0@)) && r.2 == pos + enc_tiles(r.0@).len(),
        forall|s: Seq<Tile>| #[trigger] at(ws@, pos as int, enc_tiles(s)) ==> r.0@ == s && r.1
            && r.2 == pos + enc_tiles(s).len(),
{
    let (n, ok) = word(ws, pos);
    if !ok || n > (ws.len() - pos - 1) as u64 {
        proof {
            assert forall|x: Tile| #[trigger] tile_enc()(x).len() >= 1 by {}
            assert forall|s: Seq<Tile>| #[trigger] at(ws@, pos as int, enc_tiles(s)) implies false by {
                lemma_at_word(ws@, pos as int, enc_tiles(s), 0);
                lemma_each_len(s, tile_enc());
            }
        }
        return (Vec::new(), false, pos);
    }
    proof {
        assert forall|x: Tile| #[trigger] tile_enc()(x).len() >= 1 by {}
        assert forall|s: Seq<Tile>| #[trigger] at(ws@, pos as int, enc_tiles(s)) implies n == s.len() by {
            lemma_at_word(ws@, pos as int, enc_tiles(s), 0);
            lemma_each_len(s, tile_enc());
        }
    }
    let mut out: Vec<Tile> = Vec::new();
    let mut good = true;
    let mut p: usize = pos + 1;
    let mut i: usize = 0;
    proof {
        assert(out@ =~= Seq::empty());
        lemma_at_words(ws@, pos + 1, Seq::empty());
    }
    while i < n as usize
        invariant
            pos + 1 + n <= ws@.len() <= usize::MAX,
            i <= n,
            p <= ws@.len(),
            out@.len() == i,
            ws@[pos as int] == n,
            good ==> at(ws@, pos + 1, enc_each(out@, tile_enc())) && p == pos + 1 + enc_each(out@, tile_enc()).len(),
            forall|s: Seq<Tile>| #[trigger] at(ws@, pos as int, enc_tiles(s)) ==> n == s.len() && good
                && (out@ == s.subrange(0, i as int)) && p == pos + 1 + enc_each(s.subrange(0, i as int), tile_enc()).len(),
        decreases n - i,
    {
        let (x, okx, q) = get_tile(ws, p);
        proof {
            assert forall|s: Seq<Tile>| #[trigger] at(ws@, pos as int, enc_tiles(s)) implies at(ws@, p as int, tile_enc()(s[i as int])) by {
                lemma_at_split(ws@, pos as int, seq![s.len() as u64], enc_each(s, tile_enc()));
                lemma_at_each_prefix(ws@, pos + 1, s, tile_enc(), i + 1);
                lemma_each_step(s, tile_enc(), i as int);
                lemma_at_split(ws@, pos + 1, enc_each(s.subrange(0, i as int), tile_enc()), tile_enc()(s[i as int]));
            }
        }
        let ghost p_old = p;
        let ghost good_old = good;
        let ghost out_old = out@;
        let ghost xv = x;
        out.push(x);
        good = good && okx;
        p = q;
        proof {
            assert forall|s: Seq<Tile>| #[trigger] at(ws@, pos as int, enc_tiles(s)) implies (out@ =~= s.subrange(0, i + 1)) && good
                && p == pos + 1 + enc_each(s.subrange(0, i + 1), tile_enc()).len() by {
                lemma_each_step(s, tile_enc(), i as int);
                assert(at(ws@, p_old as int, tile_enc()(s[i as int])));
                assert(good_old);
            }
        }
        proof {
            if good {
                assert(out@ =~= out_old.push(xv));
                lemma_each_push(out_old, tile_enc(), xv);
                lemma_at_join(ws@, pos + 1, enc_each(out_old, tile_enc()), tile_enc()(xv));
            }
        }
        i = i + 1;
    }
    proof {
        assert forall|s: Seq<Tile>| #[trigger] at(ws@, pos as int, enc_tiles(s)) implies out@ == s
            && p == pos + enc_tiles(s).len() by {
            assert(s.subrange(0, s.len() as int) =~= s);
        }
    }
    proof {
        if good {
            lemma_at_words(ws@, pos as int, seq![n]);
            assert(seq![n] == seq![out@.len() as u64]);
            lemma_at_join(ws@, pos as int, seq![n], enc_each(out@, tile_enc()));
        }
    }
    (out, good, p)
}

/// The cells of the map, column by column.
pub open spec fn map_cells(map: &TileMap) -> Seq<Seq<Tile>> {
    map@.map_values(|c: Vec<Tile>| c@)
}

pub open spec fn column_enc() -> spec_fn(Seq<Tile>) -> Seq<u64> {
    |c: Seq<Tile>| enc_tiles(c)
}

/// The map: the number of columns, then each column.
pub open spec fn enc_map(cells: Seq<Seq<Tile>>) -> Seq<u64> {
    seq![cells.len() as u64] + enc_each(cells, column_enc())
}

fn put_map(out: &mut Vec<u64>, map: &TileMap)
    ensures
        final(out)@ == old(out)@ + enc_map(map_cells(map)),
{
    out.push(map.len() as u64);
    let ghost cells = map_cells(map);
    let mut i: usize = 0;
    while i < map.len()
        invariant
            i <= map@.len(),
            cells == map_cells(map),
            out@ == old(out)@ + seq![map@.len() as u64] + enc_each(cells.subrange(0, i as int), column_enc()),
        decreases map@.len() - i,
    {
        put_tiles(out, &map[i]);
        proof { lemma_each_step(cells, column_enc(), i as int); }
        i = i + 1;
    }
    assert(cells.subrange(0, i as int) =~= cells);
}

fn get_column(ws: &Vec<u64>, pos: usize) -> (r: (Vec<Tile>, bool, usize))
    requires
        pos <= ws@.len(),
    ensures
        r.2 <= ws@.len(),
        forall|c: Seq<Tile>| #[trigger] at(ws@, pos as int, column_enc()(c)) ==> r.0@ == c && r.1 && r.2 == pos + column_enc()(c).len(),
        r.1 ==> at(ws@, pos as int, column_enc()(r.0@)) && r.2 == pos + column_enc()(r.0@).len(),
{
    get_tiles(ws, pos)
}

fn get_map(ws: &Vec<u64>, pos: usize) -> (r: (Vec<Vec<Tile>>, bool, usize))
    requires
        pos <= ws@.len(),
    ensures
        r.2 <= ws@.len(),
        r.1 ==> at(ws@, pos as int, enc_map(r.0@.map_values(|c: Vec<Tile>| c@))) && r.2 == pos + enc_map(r.0@.map_values(|c: Vec<Tile>| c@)).len(),
        forall|s: Seq<Seq<Tile>>| #[trigger] at(ws@, pos as int, enc_map(s)) ==> r.0@.map_values(|c: Vec<Tile>| c@) == s && r.1
            && r.2 == pos + enc_map(s).len(),
{
    let (n, ok) = word(ws, pos);
    if !ok || n > (ws.len() - pos - 1) as u64 {
        proof {
            assert forall|x: Seq<Tile>| #[trigger] column_enc()(x).len() >= 1 by {}
            assert forall|s: Seq<Seq<Tile>>| #[trigger] at(ws@, pos as int, enc_map(s)) implies false by {
                lemma_at_word(ws@, pos as int, enc_map(s), 0);
                lemma_each_len(s, column_enc());
            }
        }
        return (Vec::new(), false, pos);
    }
    proof {
        assert forall|x: Seq<Tile>| #[trigger] column_enc()(x).len() >= 1 by {}
        assert forall|s: Seq<Seq<Tile>>| #[trigger] at(ws@, pos as int, enc_map(s)) implies n == s.len() by {
            lemma_at_word(ws@, pos as int, enc_map(s), 0);
            lemma_each_len(s, column_enc());
        }
    }
    let mut out: Vec<Vec<Tile>> = Vec::new();
    let mut good = true;
    let mut p: usize = pos + 1;
    let mut i: usize = 0;
    proof {
        assert(out@.map_values(|c: Vec<Tile>| c@) =~= Seq::empty());
        lemma_at_words(ws@, pos + 1, Seq::empty());
    }
    while i < n as usize
        invariant
            pos + 1 + n <= ws@.len() <= usize::MAX,
            i <= n,
            p <= ws@.len(),
            out@.len() == i,
            ws@[pos as int] == n,
            good ==> at(ws@, pos + 1, enc_each(out@.map_values(|c: Vec<Tile>| c@), column_enc())) && p == pos + 1 + enc_each(out@.map_values(|c: Vec<Tile>| c@), column_enc()).len(),
            forall|s: Seq<Seq<Tile>>| #[trigger] at(ws@, pos as int, enc_map(s)) ==> n == s.len() && good
                && (forall|j: int| 0 <= j < i ==> #[trigger] out@[j]@ == s[j]) && p == pos + 1 + enc_each(s.subrange(0, i as int), column_enc()).len(),
        decreases n - i,
    {
        let (x, okx, q) = get_column(ws, p);
        proof {
            assert forall|s: Seq<Seq<Tile>>| #[trigger] at(ws@, pos as int, enc_map(s)) implies at(ws@, p as int, column_enc()(s[i as int])) by {
                lemma_at_split(ws@, pos as int, seq![s.len() as u64], enc_each(s, column_enc()));
                lemma_at_each_prefix(ws@, pos + 1, s, column_enc(), i + 1);
                lemma_each_step(s, column_enc(), i as int);
                lemma_at_split(ws@, pos + 1, enc_each(s.subrange(0, i as int), column_enc()), column_enc()(s[i as int]));
            }
        }
        let ghost p_old = p;
        let ghost good_old = good;
        let ghost out_old = out@;
        let ghost xv = x;
        out.push(x);
        good = good && okx;
        p = q;
        proof {
            assert forall|s: Seq<Seq<Tile>>| #[trigger] at(ws@, pos as int, enc_map(s)) implies (forall|j: int| 0 <= j < i + 1 ==> #[trigger] out@[j]@ == s[j]) && good
                && p == pos + 1 + enc_each(s.subrange(0, i + 1), column_enc()).len() by {
                lemma_each_step(s, column_enc(), i as int);
                assert(at(ws@, p_old as int, column_enc()(s[i as int])));
                assert(good_old);
            }
        }
        proof {
            if good {
                assert(out@.map_values(|c: Vec<Tile>| c@) =~= out_old.map_values(|c: Vec<Tile>| c@).push(xv@));
                lemma_each_push(out_old.map_values(|c: Vec<Tile>| c@), column_enc(), xv@);
                lemma_at_join(ws@, pos + 1, enc_each(out_old.map_values(|c: Vec<Tile>| c@), column_enc()), column_enc()(xv@));
            }
        }
        i = i + 1;
    }
    proof {
        assert forall|s: Seq<Seq<Tile>>| #[trigger] at(ws@, pos as int, enc_map(s)) implies out@.map_values(|c: Vec<Tile>| c@) == s
            && p == pos + enc_map(s).len() by {
            assert(s.subrange(0, s.len() as int) =~= s);
            assert(out@.map_values(|c: Vec<Tile>| c@) =~= s);
        }
    }
    proof {
        if good {
            lemma_at_words(ws@, pos as int, seq![n]);
            assert(seq![n] == seq![out@.map_values(|c: Vec<Tile>| c@).len() as u64]);
            lemma_at_join(ws@, pos as int, seq![n], enc_each(out@.map_values(|c: Vec<Tile>| c@), column_enc()));
        }
    }
    (out, good, p)
}

pub open spec fn w_kind(k: MessageKind) -> u64 {
    match k {
        MessageKind::Welcome => 0,
        MessageKind::Attack => 1,
        MessageKind::NoEffect => 2,
        MessageKind::PlayerDied => 3,
        MessageKind::MonsterDied => 4,
        MessageKind::NotEquipment => 5,
        MessageKind::Equipped => 6,
        MessageKind::Dequipped => 7,
        MessageKind::NoLongerConfused => 8,
        MessageKind::InventoryFull => 9,
        MessageKind::PickedUp => 10,
        MessageKind::Dropped => 11,
        MessageKind::CannotUse => 12,
        MessageKind::Cancelled => 13,
        MessageKind::FullHealth => 14,
        MessageKind::Healed => 15,
        MessageKind::Lightning => 16,
        MessageKind::NoEnemyClose => 17,
        MessageKind::Confused => 18,
        MessageKind::Fireball => 19,
        MessageKind::Burned => 20,
        MessageKind::LevelUp => 21,
    }
}

fn put_kind(k: MessageKind) -> (w: u64)
    ensures
        w == w_kind(k),
{
    match k {
        MessageKind::Welcome => 0,
        MessageKind::Attack => 1,
        MessageKind::NoEffect => 2,
        MessageKind::PlayerDied => 3,
        MessageKind::MonsterDied => 4,
        MessageKind::NotEquipment => 5,
        MessageKind::Equipped => 6,
        MessageKind::Dequipped => 7,
        MessageKind::NoLongerConfused => 8,
        MessageKind::InventoryFull => 9,
        MessageKind::PickedUp => 10,
        MessageKind::Dropped => 11,
        MessageKind::CannotUse => 12,
        MessageKind::Cancelled => 13,
        MessageKind::FullHealth => 14,
        MessageKind::Healed => 15,
        MessageKind::Lightning => 16,
        MessageKind::NoEnemyClose => 17,
        MessageKind::Confused => 18,
        MessageKind::Fireball => 19,
        MessageKind::Burned => 20,
        MessageKind::LevelUp => 21,
    }
}

fn kind_of(w: u64) -> (r: (MessageKind, bool))
    ensures
        r.1 ==> w == w_kind(r.0),
        forall|v: MessageKind| w == #[trigger] w_kind(v) ==> r == (v, true),
{
    if w == 0 {
        (MessageKind::Welcome, true)
    } else if w == 1 {
        (MessageKind::Attack, true)
    } else if w == 2 {
        (MessageKind::NoEffect, true)
    } else if w == 3 {
        (MessageKind::PlayerDied, true)
    } else if w == 4 {
        (MessageKind::MonsterDied, true)
    } else if w == 5 {
        (MessageKind::NotEquipment, true)
    } else if w == 6 {
        (MessageKind::Equipped, true)
    } else if w == 7 {
        (MessageKind::Dequipped, true)
    } else if w == 8 {
        (MessageKind::NoLongerConfused, true)
    } else if w == 9 {
        (MessageKind::InventoryFull, true)
    } else if w == 10 {
        (MessageKind::PickedUp, true)
    } else if w == 11 {
        (MessageKind::Dropped, true)
    } else if w == 12 {
        (MessageKind::CannotUse, true)
    } else if w == 13 {
        (MessageKind::Cancelled, true)
    } else if w == 14 {
        (MessageKind::FullHealth, true)
    } else if w == 15 {
        (MessageKind::Healed, true)
    } else if w == 16 {
        (MessageKind::Lightning, true)
    } else if w == 17 {
        (MessageKind::NoEnemyClose, true)
    } else if w == 18 {
        (MessageKind::Confused, true)
    } else if w == 19 {
        (MessageKind::Fireball, true)
    } else if w == 20 {
        (MessageKind::Burned, true)
    } else if w == 21 {
        (MessageKind::LevelUp, true)
    } else {
        (MessageKind::Welcome, false)
    }
}

pub open spec fn msg1(m: Message) -> Seq<u64> {
    seq![w_kind(m.kind)] + enc_str(m.subject@)
}

pub open spec fn msg2(m: Message) -> Seq<u64> {
    msg1(m) + enc_str(m.object@)
}

/// A log entry: its kind, subject, object and amount.
pub open spec fn enc_message(m: Message) -> Seq<u64> {
    msg2(m) + seq![w_i64(m.amount)]
}

pub open spec fn message_enc() -> spec_fn(Message) -> Seq<u64> {
    |m: Message| enc_message(m)
}

/// The log: its length, then each entry.
pub open spec fn enc_messages(s: Seq<Message>) -> Seq<u64> {
    seq![s.len() as u64] + enc_each(s, message_enc())
}

fn put_messages(out: &mut Vec<u64>, log: &Vec<Message>)
    ensures
        final(out)@ == old(out)@ + enc_messages(log@),
{
    out.push(log.len() as u64);
    let mut i: usize = 0;
    while i < log.len()
        invariant
            i <= log@.len(),
            out@ == old(out)@ + seq![log@.len() as u64] + enc_each(log@.subrange(0, i as int), message_enc()),
        decreases log@.len() - i,
    {
        let ghost before = out@;
        let m = &log[i];
        out.push(put_kind(m.kind));
        assert(out@ =~= before + seq![w_kind(m.kind)]);
        put_str(out, &m.subject);
        assert(out@ =~= before + msg1(*m));
        put_str(out, &m.object);
        assert(out@ =~= before + msg2(*m));
        out.push(put_i64(m.amount));
        assert(out@ =~= before + enc_message(*m));
        proof { lemma_each_step(log@, message_enc(), i as int); }
        i = i + 1;
    }
    assert(log@.subrange(0, i as int) =~= log@);
}

fn get_message(ws: &Vec<u64>, pos: usize) -> (r: (Message, bool, usize))
    requires
        pos <= ws@.len(),
    ensures
        r.2 <= ws@.len(),
        forall|m: Message| #[trigger] at(ws@, pos as int, message_enc()(m)) ==> r.0@ == m@ && r.1
            && r.2 == pos + message_enc()(m).len(),
        r.1 ==> at(ws@, pos as int, message_enc()(r.0)) && r.2 == pos + message_enc()(r.0).len(),
{
    let (k, ok0) = word(ws, pos);
    let (kind, ok1) = kind_of(k);
    let c0 = if ok0 { pos + 1 } else { pos };
    let (subject, ok2, c1) = get_str(ws, c0);
    let (object, ok3, c2) = get_str(ws, c1);
    let (a, ok4) = word(ws, c2);
    let (amount, ok5) = i64_of(a);
    let next = if ok4 { c2 + 1 } else { c2 };
    let m = Message { kind, subject, object, amount };
    proof {
        assert forall|x: Message| #[trigger] at(ws@, pos as int, message_enc()(x)) implies m@ == x@ && ok0 && ok1 && ok2
            && ok3 && ok4 && ok5 && next == pos + message_enc()(x).len() by {
            let q = pos as int;
            lemma_at_split(ws@, q, msg2(x), seq![w_i64(x.amount)]);
            lemma_at_split(ws@, q, msg1(x), enc_str(x.object@));
            lemma_at_split(ws@, q, seq![w_kind(x.kind)], enc_str(x.subject@));
            lemma_at_word(ws@, q, seq![w_kind(x.kind)], 0);
            assert(at(ws@, q + 1, enc_str(x.subject@)));
            assert(c1 == q + msg1(x).len());
            assert(c2 == q + msg2(x).len());
            lemma_at_word(ws@, q + msg2(x).len(), seq![w_i64(x.amount)], 0);
        }
        if ok0 && ok1 && ok2 && ok3 && ok4 && ok5 {
            let q = pos as int;
            lemma_at_words(ws@, q, seq![w_kind(m.kind)]);
            lemma_at_join(ws@, q, seq![w_kind(m.kind)], enc_str(m.subject@));
            lemma_at_join(ws@, q, msg1(m), enc_str(m.object@));
            lemma_at_words(ws@, c2 as int, seq![w_i64(m.amount)]);
            lemma_at_join(ws@, q, msg2(m), seq![w_i64(m.amount)]);
        }
    }
    (m, ok0 && ok1 && ok2 && ok3 && ok4 && ok5, next)
}

fn get_messages(ws: &Vec<u64>, pos: usize) -> (r: (Vec<Message>, bool, usize))
    requires
        pos <= ws@.len(),
    ensures
        r.2 <= ws@.len(),
        r.1 ==> at(ws@, pos as int, enc_messages(r.0@)) && r.2 == pos + enc_messages(r.0@).len(),
        forall|s: Seq<Message>| #[trigger] at(ws@, pos as int, enc_messages(s)) ==> log_view(r.0@) == log_view(s) && r.1
            && r.2 == pos + enc_messages(s).len(),
{
    let (n, ok) = word(ws, pos);
    if !ok || n > (ws.len() - pos - 1) as u64 {
        proof {
            assert forall|x: Message| #[trigger] message_enc()(x).len() >= 1 by {}
            assert forall|s: Seq<Message>| #[trigger] at(ws@, pos as int, enc_messages(s)) implies false by {
                lemma_at_word(ws@, pos as int, enc_messages(s), 0);
                lemma_each_len(s, message_enc());
            }
        }
        return (Vec::new(), false, pos);
    }
    proof {
        assert forall|x: Message| #[trigger] message_enc()(x).len() >= 1 by {}
        assert forall|s: Seq<Message>| #[trigger] at(ws@, pos as int, enc_messages(s)) implies n == s.len() by {
            lemma_at_word(ws@, pos as int, enc_messages(s), 0);
            lemma_each_len(s, message_enc());
        }
    }
    let mut out: Vec<Message> = Vec::new();
    let mut good = true;
    let mut p: usize = pos + 1;
    let mut i: usize = 0;
    proof {
        assert(out@ =~= Seq::empty());
        lemma_at_words(ws@, pos + 1, Seq::empty());
    }
    while i < n as usize
        invariant
            pos + 1 + n <= ws@.len() <= usize::MAX,
            i <= n,
            p <= ws@.len(),
            out@.len() == i,
            ws@[pos as int] == n,
            good ==> at(ws@, pos + 1, enc_each(out@, message_enc())) && p == pos + 1 + enc_each(out@, message_enc()).len(),
            forall|s: Seq<Message>| #[trigger] at(ws@, pos as int, enc_messages(s)) ==> n == s.len() && good
                && (forall|j: int| 0 <= j < i ==> #[trigger] out@[j]@ == s[j]@) && p == pos + 1 + enc_each(s.subrange(0, i as int), message_enc()).len(),
        decreases n - i,
    {
        let (x, okx, q) = get_message(ws, p);
        proof {
            assert forall|s: Seq<Message>| #[trigger] at(ws@, pos as int, enc_messages(s)) implies at(ws@, p as int, message_enc()(s[i as int])) by {
                lemma_at_split(ws@, pos as int, seq![s.len() as u64], enc_each(s, message_enc()));
                lemma_at_each_prefix(ws@, pos + 1, s, message_enc(), i + 1);
                lemma_each_step(s, message_enc(), i as int);
                lemma_at_split(ws@, pos + 1, enc_each(s.subrange(0, i as int), message_enc()), message_enc()(s[i as int]));
            }
        }
        let ghost p_old = p;
        let ghost good_old = good;
        let ghost out_old = out@;
        let ghost xv = x;
        out.push(x);
        good = good && okx;
        p = q;
        proof {
            assert forall|s: Seq<Message>| #[trigger] at(ws@, pos as int, enc_messages(s)) implies (forall|j: int| 0 <= j < i + 1 ==> #[trigger] out@[j]@ == s[j]@) && good
                && p == pos + 1 + enc_each(s.subrange(0, i + 1), message_enc()).len() by {
                lemma_each_step(s, message_enc(), i as int);
                assert(at(ws@, p_old as int, message_enc()(s[i as int])));
                assert(good_old);
            }
        }
        proof {
            if good {
                assert(out@ =~= out_old.push(xv));
                lemma_each_push(out_old, message_enc(), xv);
                lemma_at_join(ws@, pos + 1, enc_each(out_old, message_enc()), message_enc()(xv));
            }
        }
        i = i + 1;
    }
    proof {
        assert forall|s: Seq<Message>| #[trigger] at(ws@, pos as int, enc_messages(s)) implies log_view(out@) == log_view(s)
            && p == pos + enc_messages(s).len() by {
            assert(s.subrange(0, s.len() as int) =~= s);
            assert(log_view(out@) =~= log_view(s));
        }
    }
    proof {
        if good {
            lemma_at_words(ws@, pos as int, seq![n]);
            assert(seq![n] == seq![out@.len() as u64]);
            lemma_at_join(ws@, pos as int, seq![n], enc_each(out@, message_enc()));
        }
    }
    (out, good, p)
}


pub open spec fn game1(g: &Game) -> Seq<u64> {
    enc_map(map_cells(&g.map)) + enc_messages(g.log@)
}

pub open spec fn game2(g: &Game) -> Seq<u64> {
    game1(g) + enc_objects(g.inventory@)
}

/// The game record: the map, the log, the inventory and the dungeon level.
pub open spec fn enc_game(g: &Game) -> Seq<u64> {
    game2(g) + seq![g.dungeon_level as u64]
}

/// What a save holds: the entity store, then the game record.
pub open spec fn enc_save(objects: Seq<Object>, g: &Game) -> Seq<u64> {
    enc_objects(objects) + enc_game(g)
}

/// The two games hold the same values.
pub open spec fn same_game(a: &Game, b: &Game) -> bool {
    &&& map_cells(&a.map) == map_cells(&b.map)
    &&& log_view(a.log@) == log_view(b.log@)
    &&& same_objects(a.inventory@, b.inventory@)
    &&& a.dungeon_level == b.dungeon_level
}

/// The eight bytes of a word, least significant first.
pub open spec fn word_bytes(w: u64) -> Seq<u8> {
    seq![
        (w & 0xff) as u8,
        ((w >> 8u64) & 0xff) as u8,
        ((w >> 16u64) & 0xff) as u8,
        ((w >> 24u64) & 0xff) as u8,
        ((w >> 32u64) & 0xff) as u8,
        ((w >> 40u64) & 0xff) as u8,
        ((w >> 48u64) & 0xff) as u8,
        ((w >> 56u64) & 0xff) as u8,
    ]
}

/// The bytes of the words, one word after the other.
pub open spec fn to_bytes(ws: Seq<u64>) -> Seq<u8>
    decreases ws.len(),
{
    if ws.len() == 0 {
        Seq::empty()
    } else {
        to_bytes(ws.drop_last()) + word_bytes(ws.last())
    }
}

proof fn lemma_to_bytes(ws: Seq<u64>)
    ensures
        to_bytes(ws).len() == 8 * ws.len(),
        forall|i: int, k: int| 0 <= i < ws.len() && 0 <= k < 8 ==> #[trigger] to_bytes(ws)[8 * i + k] == word_bytes(ws[i])[k],
    decreases ws.len(),
{
    if ws.len() > 0 {
        let init = ws.drop_last();
        lemma_to_bytes(init);
        assert forall|i: int, k: int| 0 <= i < ws.len() && 0 <= k < 8 implies #[trigger] to_bytes(ws)[8 * i + k] == word_bytes(ws[i])[k] by {
            if i < ws.len() - 1 {
                assert(to_bytes(init)[8 * i + k] == word_bytes(init[i])[k]);
            }
        }
    }
}

proof fn lemma_join_bytes(w: u64, b0: u8, b1: u8, b2: u8, b3: u8, b4: u8, b5: u8, b6: u8, b7: u8)
    requires
        b0 == (w & 0xff) as u8,
        b1 == ((w >> 8u64) & 0xff) as u8,
        b2 == ((w >> 16u64) & 0xff) as u8,
        b3 == ((w >> 24u64) & 0xff) as u8,
        b4 == ((w >> 32u64) & 0xff) as u8,
        b5 == ((w >> 40u64) & 0xff) as u8,
        b6 == ((w >> 48u64) & 0xff) as u8,
        b7 == ((w >> 56u64) & 0xff) as u8,
    ensures
        (b0 as u64) | ((b1 as u64) << 8u64) | ((b2 as u64) << 16u64) | ((b3 as u64) << 24u64) | ((b4 as u64) << 32u64)
            | ((b5 as u64) << 40u64) | ((b6 as u64) << 48u64) | ((b7 as u64) << 56u64) == w,
{
    assert((b0 as u64) | ((b1 as u64) << 8u64) | ((b2 as u64) << 16u64) | ((b3 as u64) << 24u64) | ((b4 as u64) << 32u64)
        | ((b5 as u64) << 40u64) | ((b6 as u64) << 48u64) | ((b7 as u64) << 56u64) == w) by (bit_vector)
        requires
            b0 == (w & 0xff) as u8,
            b1 == ((w >> 8u64) & 0xff) as u8,
            b2 == ((w >> 16u64) & 0xff) as u8,
            b3 == ((w >> 24u64) & 0xff) as u8,
            b4 == ((w >> 32u64) & 0xff) as u8,
            b5 == ((w >> 40u64) & 0xff) as u8,
            b6 == ((w >> 48u64) & 0xff) as u8,
            b7 == ((w >> 56u64) & 0xff) as u8,
    ;
}

proof fn lemma_split_bytes(w: u64, b0: u8, b1: u8, b2: u8, b3: u8, b4: u8, b5: u8, b6: u8, b7: u8)
    requires
        w == (b0 as u64) | ((b1 as u64) << 8u64) | ((b2 as u64) << 16u64) | ((b3 as u64) << 24u64) | ((b4 as u64)
            << 32u64) | ((b5 as u64) << 40u64) | ((b6 as u64) << 48u64) | ((b7 as u64) << 56u64),
    ensures
        word_bytes(w) == seq![b0, b1, b2, b3, b4, b5, b6, b7],
{
    assert(b0 == (w & 0xff) as u8 && b1 == ((w >> 8u64) & 0xff) as u8 && b2 == ((w >> 16u64) & 0xff) as u8
        && b3 == ((w >> 24u64) & 0xff) as u8 && b4 == ((w >> 32u64) & 0xff) as u8 && b5 == ((w >> 40u64) & 0xff) as u8
        && b6 == ((w >> 48u64) & 0xff) as u8 && b7 == ((w >> 56u64) & 0xff) as u8) by (bit_vector)
        requires
            w == (b0 as u64) | ((b1 as u64) << 8u64) | ((b2 as u64) << 16u64) | ((b3 as u64) << 24u64) | ((b4 as u64)
                << 32u64) | ((b5 as u64) << 40u64) | ((b6 as u64) << 48u64) | ((b7 as u64) << 56u64),
    ;
    assert(word_bytes(w) =~= seq![b0, b1, b2, b3, b4, b5, b6, b7]);
}

fn words_to_bytes(ws: &Vec<u64>) -> (bytes: Vec<u8>)
    ensures
        bytes@ == to_bytes(ws@),
{
    let mut bytes: Vec<u8> = Vec::new();
    let mut i: usize = 0;
    while i < ws.len()
        invariant
            i <= ws@.len(),
            bytes@ == to_bytes(ws@.subrange(0, i as int)),
        decreases ws@.len() - i,
    {
        let w = ws[i];
        let ghost before = bytes@;
        bytes.push((w & 0xff) as u8);
        bytes.push(((w >> 8u64) & 0xff) as u8);
        bytes.push(((w >> 16u64) & 0xff) as u8);
        bytes.push(((w >> 24u64) & 0xff) as u8);
        bytes.push(((w >> 32u64) & 0xff) as u8);
        bytes.push(((w >> 40u64) & 0xff) as u8);
        bytes.push(((w >> 48u64) & 0xff) as u8);
        bytes.push(((w >> 56u64) & 0xff) as u8);
        assert(bytes@ =~= before + word_bytes(w));
        assert(ws@.subrange(0, i + 1).drop_last() =~= ws@.subrange(0, i as int));
        i = i + 1;
    }
    assert(ws@.subrange(0, i as int) =~= ws@);
    bytes
}

fn bytes_to_words(bytes: &Vec<u8>) -> (r: Option<Vec<u64>>)
    ensures
        forall|ws: Seq<u64>| bytes@ == #[trigger] to_bytes(ws) ==> (r matches Some(v) && v@ == ws),
        r matches Some(v) ==> bytes@ == to_bytes(v@),
{
    if bytes.len() % 8 != 0 {
        proof {
            assert forall|ws: Seq<u64>| bytes@ == #[trigger] to_bytes(ws) implies false by {
                lemma_to_bytes(ws);
            }
        }
        return None;
    }
    let n = bytes.len() / 8;
    let mut words: Vec<u64> = Vec::new();
    assert(bytes@.subrange(0, 0) =~= to_bytes(words@));
    let mut i: usize = 0;
    while i < n
        invariant
            n * 8 == bytes@.len() <= usize::MAX,
            i <= n,
            words@.len() == i,
            bytes@.subrange(0, 8 * i) == to_bytes(words@),
            forall|ws: Seq<u64>| bytes@ == #[trigger] to_bytes(ws) ==> words@ == ws.subrange(0, i as int),
        decreases n - i,
    {
        let b = 8 * i;
        let w = (bytes[b] as u64) | ((bytes[b + 1] as u64) << 8u64) | ((bytes[b + 2] as u64) << 16u64)
            | ((bytes[b + 3] as u64) << 24u64) | ((bytes[b + 4] as u64) << 32u64) | ((bytes[b + 5] as u64) << 40u64)
            | ((bytes[b + 6] as u64) << 48u64) | ((bytes[b + 7] as u64) << 56u64);
        proof {
            assert forall|ws: Seq<u64>| bytes@ == #[trigger] to_bytes(ws) implies w == ws[i as int] by {
                lemma_to_bytes(ws);
                let x = ws[i as int];
                assert(bytes@[b + 0] == word_bytes(x)[0]);
                assert(bytes@[b + 1] == word_bytes(x)[1]);
                assert(bytes@[b + 2] == word_bytes(x)[2]);
                assert(bytes@[b + 3] == word_bytes(x)[3]);
                assert(bytes@[b + 4] == word_bytes(x)[4]);
                assert(bytes@[b + 5] == word_bytes(x)[5]);
                assert(bytes@[b + 6] == word_bytes(x)[6]);
                assert(bytes@[b + 7] == word_bytes(x)[7]);
                lemma_join_bytes(x, bytes@[b + 0], bytes@[b + 1], bytes@[b + 2], bytes@[b + 3], bytes@[b + 4],
                    bytes@[b + 5], bytes@[b + 6], bytes@[b + 7]);
            }
        }
        let ghost w0 = words@;
        words.push(w);
        proof {
            lemma_split_bytes(w, bytes@[b + 0], bytes@[b + 1], bytes@[b + 2], bytes@[b + 3], bytes@[b + 4],
                bytes@[b + 5], bytes@[b + 6], bytes@[b + 7]);
            assert(words@.drop_last() =~= w0);
            assert(bytes@.subrange(0, 8 * (i + 1)) =~= bytes@.subrange(0, 8 * i) + word_bytes(w));
        }
        proof {
            assert forall|ws: Seq<u64>| bytes@ == #[trigger] to_bytes(ws) implies words@ == ws.subrange(0, i + 1) by {
                lemma_to_bytes(ws);
                assert(words@ =~= ws.subrange(0, i + 1));
            }
        }
        i = i + 1;
    }
    proof {
        assert forall|ws: Seq<u64>| bytes@ == #[trigger] to_bytes(ws) implies words@ == ws by {
            lemma_to_bytes(ws);
            assert(ws.subrange(0, i as int) =~= ws);
        }
        assert(bytes@.subrange(0, 8 * i) =~= bytes@);
    }
    Some(words)
}

proof fn lemma_save_at(ws: Seq<u64>, o: Seq<Object>, g: &Game)
    requires
        ws == enc_save(o, g),
    ensures
        ({
            let eo = enc_objects(o).len() as int;
            let em = enc_map(map_cells(&g.map)).len() as int;
            &&& at(ws, 0, enc_objects(o))
            &&& at(ws, eo, enc_map(map_cells(&g.map)))
            &&& at(ws, eo + em, enc_messages(g.log@))
            &&& at(ws, eo + game1(g).len(), enc_objects(g.inventory@))
            &&& ws.len() == eo + game2(g).len() + 1
            &&& ws[eo + game2(g).len()] == g.dungeon_level as u64
        }),
{
    let eo = enc_objects(o).len() as int;
    assert(ws.subrange(0, ws.len() as int) =~= ws);
    assert(at(ws, 0, ws));
    lemma_at_split(ws, 0, enc_objects(o), enc_game(g));
    lemma_at_split(ws, eo, game2(g), seq![g.dungeon_level as u64]);
    lemma_at_split(ws, eo, game1(g), enc_objects(g.inventory@));
    lemma_at_split(ws, eo, enc_map(map_cells(&g.map)), enc_messages(g.log@));
    lemma_at_word(ws, eo + game2(g).len(), seq![g.dungeon_level as u64], 0);
}

/// Why a saved game could not be read back.
#[derive(Clone, Copy, Debug, PartialEq, Eq, Structural)]
pub enum LoadError {
    /// The bytes are not a saved game.
    Malformed,
}

/// Encodes the entity store and the game: every entity with all its optional parts,
/// including nested behaviours, and the map, log, inventory and dungeon level.
pub fn save(objects: &Vec<Object>, game: &Game) -> (bytes: Vec<u8>)
    ensures
        bytes@ == to_bytes(enc_save(objects@, game)),
{
    let mut ws: Vec<u64> = Vec::new();
    put_objects(&mut ws, objects);
    let ghost a = ws@;
    put_map(&mut ws, &game.map);
    put_messages(&mut ws, &game.log);
    assert(ws@ =~= a + game1(game));
    put_objects(&mut ws, &game.inventory);
    assert(ws@ =~= a + game2(game));
    ws.push(game.dungeon_level as u64);
    assert(ws@ =~= enc_save(objects@, game));
    words_to_bytes(&ws)
}

/// The entity store and game that the words hold.
fn decode_save(ws: &Vec<u64>) -> (r: Option<(Vec<Object>, Game)>)
    ensures
        forall|objects: Seq<Object>, game: Game| ws@ == #[trigger] enc_save(objects, &game) ==> (r matches Some((o, g))
            && same_objects(o@, objects) && same_game(&g, &game)),
        r matches Some((o, g)) ==> ws@ == enc_save(o@, &g),
{
    let (objects, ok1, c1) = get_objects(ws, 0);
    let (map, ok2, c2) = get_map(ws, c1);
    let (log, ok3, c3) = get_messages(ws, c2);
    let (inventory, ok4, c4) = get_objects(ws, c3);
    let (level, ok5) = word(ws, c4);
    let good = ok1 && ok2 && ok3 && ok4 && ok5 && level <= u32::MAX as u64 && c4 + 1 == ws.len();
    proof {
        assert forall|o: Seq<Object>, g: Game| ws@ == #[trigger] enc_save(o, &g) implies good
            && same_objects(objects@, o) && map@.map_values(|c: Vec<Tile>| c@) == map_cells(&g.map)
            && log_view(log@) == log_view(g.log@) && same_objects(inventory@, g.inventory@)
            && level == g.dungeon_level as u64 by {
            lemma_save_at(ws@, o, &g);
            let eo = enc_objects(o).len() as int;
            assert(c1 == eo);
            assert(at(ws@, c1 as int, enc_map(map_cells(&g.map))));
            assert(c2 == eo + enc_map(map_cells(&g.map)).len());
            assert(at(ws@, c2 as int, enc_messages(g.log@)));
            assert(c3 == eo + game1(&g).len());
            assert(at(ws@, c3 as int, enc_objects(g.inventory@)));
            assert(c4 == eo + game2(&g).len());
        }
    }
    if !good {
        return None;
    }
    let game = Game { map, log, inventory, dungeon_level: level as u32 };
    proof {
        let wv = ws@;
        lemma_at_join(wv, c1 as int, enc_map(map_cells(&game.map)), enc_messages(game.log@));
        lemma_at_join(wv, c1 as int, game1(&game), enc_objects(game.inventory@));
        lemma_at_words(wv, c4 as int, seq![game.dungeon_level as u64]);
        lemma_at_join(wv, c1 as int, game2(&game), seq![game.dungeon_level as u64]);
        lemma_at_join(wv, 0, enc_objects(objects@), enc_game(&game));
        assert(wv.subrange(0, wv.len() as int) =~= wv);
    }
    proof {
        assert forall|o: Seq<Object>, g: Game| ws@ == #[trigger] enc_save(o, &g) implies same_game(&game, &g) by {
            assert(map_cells(&game.map) == map@.map_values(|c: Vec<Tile>| c@));
        }
    }
    Some((objects, game))
}

/// Reads back what `save` wrote: for the bytes of any saved store and game, the same
/// entities and the same game come back. A store and game come back only from bytes
/// that are exactly their saved form; all other bytes give `LoadError::Malformed`.
pub fn load(bytes: &Vec<u8>) -> (r: Result<(Vec<Object>, Game), LoadError>)
    ensures
        forall|objects: Seq<Object>, game: Game| bytes@ == #[trigger] to_bytes(enc_save(objects, &game)) ==> (r matches Ok((o, g))
            && same_objects(o@, objects) && same_game(&g, &game)),
        r matches Ok((o, g)) ==> bytes@ == to_bytes(enc_save(o@, &g)),
        r is Err ==> r == Err::<(Vec<Object>, Game), LoadError>(LoadError::Malformed),
{
    let ws = match bytes_to_words(bytes) {
        Some(ws) => ws,
        None => return Err(LoadError::Malformed),
    };
    match decode_save(&ws) {
        Some(saved) => Ok(saved),
        None => Err(LoadError::Malformed),
    }
}

} // verus!
