//! The persisted form of the policy settings.
//!
//! Settings are stored as one JSON object with a fixed field order:
//! the opt-in id array, the three override maps, and the auto-exit flag.
//! `save_settings` renders that canonical form; `load_settings` parses it
//! back, falling back to the all-defaults policy on absence or on any
//! malformed content — a load never fails. Parsing exactly inverts
//! rendering: see `lemma_settings_round_trip`.

use vstd::prelude::*;
use vstd::string::*;
use crate::assoc::distinct_keys;
use crate::ids::hex_digit;
use crate::settings::{default_model, AppSettings, SettingsModel};
use crate::text::push_char;

verus! {

// ---------- rendering ----------
/// How one character is written inside a JSON string literal.
pub open spec fn esc_char(c: char) -> Seq<char> {
    if c == '"' {
        seq!['\\', '"']
    } else if c == '\\' {
        seq!['\\', '\\']
    } else if (c as u32) < 32 {
        seq![
            '\\',
            'u',
            '0',
            '0',
            hex_digit(((c as u32) / 16) as int),
            hex_digit(((c as u32) % 16) as int),
        ]
    } else {
        seq![c]
    }
}

/// A whole string body, escaped.
pub open spec fn esc_str(s: Seq<char>) -> Seq<char>
    decreases s.len(),
{
    if s.len() == 0 {
        Seq::empty()
    } else {
        esc_char(s[0]) + esc_str(s.drop_first())
    }
}

/// A quoted, escaped string literal.
pub open spec fn enc_string(s: Seq<char>) -> Seq<char> {
    seq!['"'] + esc_str(s) + seq!['"']
}

/// The decimal digits of `n`, most significant first.
pub open spec fn dec_digits(n: nat) -> Seq<char>
    decreases n,
{
    if n < 10 {
        seq![hex_digit(n as int)]
    } else {
        dec_digits(n / 10) + seq![hex_digit((n % 10) as int)]
    }
}

pub open spec fn enc_bool(b: bool) -> Seq<char> {
    if b {
        "true"@
    } else {
        "false"@
    }
}

/// Array elements: `"a","b"`.
pub open spec fn enc_str_items(items: Seq<Seq<char>>) -> Seq<char>
    decreases items.len(),
{
    if items.len() == 0 {
        Seq::empty()
    } else if items.len() == 1 {
        enc_string(items[0])
    } else {
        enc_string(items[0]) + seq![','] + enc_str_items(items.drop_first())
    }
}

pub open spec fn enc_str_array(items: Seq<Seq<char>>) -> Seq<char> {
    seq!['['] + enc_str_items(items) + seq![']']
}

/// Map entries with string values: `"k":"v","k2":"v2"`.
pub open spec fn enc_str_entries(m: Seq<(Seq<char>, Seq<char>)>) -> Seq<char>
    decreases m.len(),
{
    if m.len() == 0 {
        Seq::empty()
    } else if m.len() == 1 {
        enc_string(m[0].0) + seq![':'] + enc_string(m[0].1)
    } else {
        enc_string(m[0].0) + seq![':'] + enc_string(m[0].1) + seq![','] + enc_str_entries(
            m.drop_first(),
        )
    }
}

pub open spec fn enc_str_map(m: Seq<(Seq<char>, Seq<char>)>) -> Seq<char> {
    seq!['{'] + enc_str_entries(m) + seq!['}']
}

/// Map entries with numeric values: `"k":3,"k2":0`.
pub open spec fn enc_u32_entries(m: Seq<(Seq<char>, u32)>) -> Seq<char>
    decreases m.len(),
{
    if m.len() == 0 {
        Seq::empty()
    } else if m.len() == 1 {
        enc_string(m[0].0) + seq![':'] + dec_digits(m[0].1 as nat)
    } else {
        enc_string(m[0].0) + seq![':'] + dec_digits(m[0].1 as nat) + seq![','] + enc_u32_entries(
            m.drop_first(),
        )
    }
}

pub open spec fn enc_u32_map(m: Seq<(Seq<char>, u32)>) -> Seq<char> {
    seq!['{'] + enc_u32_entries(m) + seq!['}']
}

/// The whole persisted object, canonical field order.
pub open spec fn enc_settings(m: SettingsModel) -> Seq<char> {
    seq!['{'] + "\"auto_minimize_items\":"@ + enc_str_array(m.auto_minimize_items)
        + ",\"process_name_mappings\":"@ + enc_str_map(m.process_name_mappings)
        + ",\"minimize_behaviors\":"@ + enc_str_map(m.minimize_behaviors)
        + ",\"minimize_delays\":"@ + enc_u32_map(m.minimize_delays)
        + ",\"auto_exit_after_minimize\":"@ + enc_bool(m.auto_exit_after_minimize) + seq!['}']
}

// ---------- rendering, executable ----------
fn esc_char_push(out: &mut String, c: char)
    ensures
        final(out)@ == old(out)@ + esc_char(c),
{
    if c == '"' {
        push_char(out, '\\');
        push_char(out, '"');
        proof {
            assert(out@ =~= old(out)@ + esc_char(c));
        }
    } else if c == '\\' {
        push_char(out, '\\');
        push_char(out, '\\');
        proof {
            assert(out@ =~= old(out)@ + esc_char(c));
        }
    } else if (c as u32) < 32 {
        let v = c as u32;
        push_char(out, '\\');
        push_char(out, 'u');
        push_char(out, '0');
        push_char(out, '0');
        push_char(out, crate::ids::hex_digit_of((v / 16) as u64));
        push_char(out, crate::ids::hex_digit_of((v % 16) as u64));
        proof {
            assert((c as u32) < 32);
            assert(out@ =~= old(out)@ + esc_char(c));
        }
    } else {
        push_char(out, c);
        proof {
            assert(!((c as u32) < 32));
            assert(out@ =~= old(out)@ + esc_char(c));
        }
    }
}

fn push_quoted(out: &mut String, s: &str)
    ensures
        final(out)@ == old(out)@ + enc_string(s@),
{
    push_char(out, '"');
    let n = s.unicode_len();
    let mut i: usize = 0;
    proof {
        assert(esc_str(s@.take(0)) =~= Seq::<char>::empty());
        assert(out@ =~= old(out)@ + seq!['"'] + esc_str(s@.take(0)));
    }
    while i < n
        invariant
            n == s@.len(),
            i <= n,
            out@ == old(out)@ + seq!['"'] + esc_str(s@.take(i as int)),
        decreases n - i,
    {
        let c = s.get_char(i);
        esc_char_push(out, c);
        proof {
            assert(s@.take(i + 1) =~= s@.take(i as int) + seq![c]);
            lemma_esc_str_concat(s@.take(i as int), seq![c]);
            assert(esc_str(seq![c]) =~= esc_char(c)) by {
                assert(seq![c].drop_first() =~= Seq::<char>::empty());
                assert(esc_str(Seq::<char>::empty()) =~= Seq::<char>::empty());
                assert(esc_char(c) + Seq::<char>::empty() =~= esc_char(c));
            }
            assert(out@ =~= old(out)@ + seq!['"'] + esc_str(s@.take(i + 1)));
        }
        i = i + 1;
    }
    push_char(out, '"');
    proof {
        assert(s@.take(n as int) =~= s@);
        assert(out@ =~= old(out)@ + enc_string(s@));
    }
}

proof fn lemma_esc_str_concat(a: Seq<char>, b: Seq<char>)
    ensures
        esc_str(a + b) == esc_str(a) + esc_str(b),
    decreases a.len(),
{
    if a.len() == 0 {
        assert(a + b =~= b);
        assert(Seq::<char>::empty() + esc_str(b) =~= esc_str(b));
    } else {
        assert((a + b).drop_first() =~= a.drop_first() + b);
        lemma_esc_str_concat(a.drop_first(), b);
        assert((a + b)[0] == a[0]);
        assert(esc_char(a[0]) + (esc_str(a.drop_first()) + esc_str(b)) =~= (esc_char(a[0])
            + esc_str(a.drop_first())) + esc_str(b));
    }
}

fn push_u32(out: &mut String, v: u32)
    ensures
        final(out)@ == old(out)@ + dec_digits(v as nat),
{
    let mut digits: Vec<char> = Vec::new();
    let mut x = v;
    proof {
        assert(dec_digits(v as nat) =~= dec_digits(x as nat) + digits@);
    }
    loop
        invariant_except_break
            dec_digits(v as nat) == dec_digits(x as nat) + digits@,
        ensures
            dec_digits(v as nat) == digits@,
        decreases x,
    {
        let ghost before = digits@;
        let d = crate::ids::hex_digit_of((x % 10) as u64);
        let mut nd: Vec<char> = Vec::new();
        nd.push(d);
        nd.append(&mut digits);
        digits = nd;
        proof {
            assert(digits@ =~= seq![hex_digit(((x as nat) % 10) as int)] + before);
        }
        if x < 10 {
            proof {
                assert(dec_digits(x as nat) == seq![hex_digit(x as int)]);
                assert(x as int == ((x as nat) % 10) as int);
                assert(dec_digits(v as nat) =~= digits@);
            }
            break ;
        }
        proof {
            assert(dec_digits(x as nat) == dec_digits((x as nat) / 10) + seq![
                hex_digit(((x as nat) % 10) as int),
            ]);
            assert(dec_digits((x as nat) / 10) + (seq![hex_digit(((x as nat) % 10) as int)]
                + before) =~= (dec_digits((x as nat) / 10) + seq![
                hex_digit(((x as nat) % 10) as int),
            ]) + before);
        }
        x = x / 10;
    }
    let n = digits.len();
    let mut i: usize = 0;
    proof {
        assert(out@ =~= old(out)@ + digits@.take(0));
    }
    while i < n
        invariant
            n == digits@.len(),
            i <= n,
            dec_digits(v as nat) == digits@,
            out@ == old(out)@ + digits@.take(i as int),
        decreases n - i,
    {
        let c = digits[i];
        push_char(out, c);
        proof {
            assert(digits@.take(i + 1) =~= digits@.take(i as int).push(c));
            assert(old(out)@ + digits@.take(i + 1) =~= (old(out)@ + digits@.take(i as int)).push(
                c,
            ));
        }
        i = i + 1;
    }
    proof {
        assert(digits@.take(n as int) =~= digits@);
    }
}

fn push_lit(out: &mut String, lit: &str)
    ensures
        final(out)@ == old(out)@ + lit@,
{
    out.append(lit);
}

/// Renders an array of strings.
fn push_str_array(out: &mut String, items: &Vec<String>)
    ensures
        final(out)@ == old(out)@ + enc_str_array(items.deep_view()),
{
    let ghost dv = items.deep_view();
    push_char(out, '[');
    let n = items.len();
    let mut i: usize = 0;
    proof {
        assert(out@ =~= old(out)@ + seq!['['] + joined_str_items(dv, 0));
    }
    while i < n
        invariant
            n == items@.len(),
            dv == items.deep_view(),
            dv.len() == n,
            i <= n,
            out@ == old(out)@ + seq!['['] + joined_str_items(dv, i as int),
        decreases n - i,
    {
        proof {
            assert(dv[i as int] == items@[i as int]@);
        }
        if i > 0 {
            push_char(out, ',');
        }
        push_quoted(out, items[i].as_str());
        proof {
            lemma_joined_str_items_step(dv, i as int);
            if i > 0 {
                assert(out@ =~= old(out)@ + seq!['['] + joined_str_items(dv, i + 1));
            } else {
                assert(out@ =~= old(out)@ + seq!['['] + joined_str_items(dv, 1));
            }
        }
        i = i + 1;
    }
    push_char(out, ']');
    proof {
        lemma_joined_str_items_full(dv);
        assert(out@ =~= old(out)@ + enc_str_array(dv));
    }
}

/// The first `i` array elements, rendered and separated.
pub open spec fn joined_str_items(items: Seq<Seq<char>>, i: int) -> Seq<char>
    decreases i,
{
    if i <= 0 {
        Seq::empty()
    } else if i == 1 {
        enc_string(items[0])
    } else {
        joined_str_items(items, i - 1) + seq![','] + enc_string(items[i - 1])
    }
}

proof fn lemma_joined_str_items_step(items: Seq<Seq<char>>, i: int)
    requires
        0 <= i < items.len(),
    ensures
        i == 0 ==> joined_str_items(items, 1) == joined_str_items(items, 0) + enc_string(items[0]),
        i > 0 ==> joined_str_items(items, i + 1) == joined_str_items(items, i) + seq![',']
            + enc_string(items[i]),
{
    if i == 0 {
        assert(joined_str_items(items, 0) + enc_string(items[0]) =~= enc_string(items[0]));
    }
}

/// The incremental join agrees with the recursive rendering.
proof fn lemma_joined_str_items_full(items: Seq<Seq<char>>)
    ensures
        joined_str_items(items, items.len() as int) == enc_str_items(items),
    decreases items.len(),
{
    if items.len() == 0 {
    } else if items.len() == 1 {
    } else {
        lemma_joined_str_items_full(items.drop_first());
        lemma_joined_shift(items, items.len() as int);
        assert(enc_string(items[0]) + seq![','] + enc_str_items(items.drop_first())
            == enc_str_items(items));
    }
}

/// Joining from the front equals a head plus joining the tail.
proof fn lemma_joined_shift(items: Seq<Seq<char>>, i: int)
    requires
        2 <= i <= items.len(),
    ensures
        joined_str_items(items, i) == enc_string(items[0]) + seq![','] + joined_str_items(
            items.drop_first(),
            i - 1,
        ),
    decreases i,
{
    if i == 2 {
        assert(items.drop_first()[0] == items[1]);
        assert(joined_str_items(items, 2) == joined_str_items(items, 1) + seq![','] + enc_string(
            items[1],
        ));
        assert(joined_str_items(items, 1) == enc_string(items[0]));
        assert(joined_str_items(items.drop_first(), 1) == enc_string(items.drop_first()[0]));
        assert(enc_string(items[0]) + seq![','] + enc_string(items[1]) =~= (enc_string(items[0])
            + seq![','] + joined_str_items(items.drop_first(), 1)));
    } else {
        lemma_joined_shift(items, i - 1);
        assert(items.drop_first()[i - 2] == items[i - 1]);
        assert(joined_str_items(items, i) == joined_str_items(items, i - 1) + seq![',']
            + enc_string(items[i - 1]));
        assert(joined_str_items(items.drop_first(), i - 1) == joined_str_items(
            items.drop_first(),
            i - 2,
        ) + seq![','] + enc_string(items.drop_first()[i - 2]));
        assert((enc_string(items[0]) + seq![','] + joined_str_items(items.drop_first(), i - 2))
            + seq![','] + enc_string(items[i - 1]) =~= enc_string(items[0]) + seq![','] + (
        joined_str_items(items.drop_first(), i - 2) + seq![','] + enc_string(
            items.drop_first()[i - 2],
        )));
    }
}

/// The first `i` string-map entries, rendered and separated.
pub open spec fn joined_str_entries(m: Seq<(Seq<char>, Seq<char>)>, i: int) -> Seq<char>
    decreases i,
{
    if i <= 0 {
        Seq::empty()
    } else if i == 1 {
        enc_string(m[0].0) + seq![':'] + enc_string(m[0].1)
    } else {
        joined_str_entries(m, i - 1) + seq![','] + enc_string(m[i - 1].0) + seq![':'] + enc_string(
            m[i - 1].1,
        )
    }
}

proof fn lemma_joined_str_entries_full(m: Seq<(Seq<char>, Seq<char>)>)
    ensures
        joined_str_entries(m, m.len() as int) == enc_str_entries(m),
    decreases m.len(),
{
    if m.len() <= 1 {
    } else {
        lemma_joined_str_entries_full(m.drop_first());
        lemma_joined_str_entries_shift(m, m.len() as int);
    }
}

proof fn lemma_joined_str_entries_shift(m: Seq<(Seq<char>, Seq<char>)>, i: int)
    requires
        2 <= i <= m.len(),
    ensures
        joined_str_entries(m, i) == enc_string(m[0].0) + seq![':'] + enc_string(m[0].1) + seq![',']
            + joined_str_entries(m.drop_first(), i - 1),
    decreases i,
{
    let h = enc_string(m[0].0) + seq![':'] + enc_string(m[0].1);
    if i == 2 {
        assert(m.drop_first()[0] == m[1]);
        assert(joined_str_entries(m, 2) == joined_str_entries(m, 1) + seq![','] + enc_string(
            m[1].0,
        ) + seq![':'] + enc_string(m[1].1));
        assert(joined_str_entries(m, 1) == h);
        assert(joined_str_entries(m.drop_first(), 1) == enc_string(m.drop_first()[0].0) + seq![':']
            + enc_string(m.drop_first()[0].1));
        assert(h + seq![','] + enc_string(m[1].0) + seq![':'] + enc_string(m[1].1) =~= h + seq![
            ',',
        ] + joined_str_entries(m.drop_first(), 1));
    } else {
        lemma_joined_str_entries_shift(m, i - 1);
        assert(m.drop_first()[i - 2] == m[i - 1]);
        assert(joined_str_entries(m, i) == joined_str_entries(m, i - 1) + seq![','] + enc_string(
            m[i - 1].0,
        ) + seq![':'] + enc_string(m[i - 1].1));
        assert(joined_str_entries(m.drop_first(), i - 1) == joined_str_entries(
            m.drop_first(),
            i - 2,
        ) + seq![','] + enc_string(m.drop_first()[i - 2].0) + seq![':'] + enc_string(
            m.drop_first()[i - 2].1,
        ));
        assert((h + seq![','] + joined_str_entries(m.drop_first(), i - 2)) + seq![','] + enc_string(
            m[i - 1].0,
        ) + seq![':'] + enc_string(m[i - 1].1) =~= h + seq![','] + (joined_str_entries(
            m.drop_first(),
            i - 2,
        ) + seq![','] + enc_string(m.drop_first()[i - 2].0) + seq![':'] + enc_string(
            m.drop_first()[i - 2].1,
        )));
    }
}

/// Renders a map with string values.
fn push_str_map(out: &mut String, m: &Vec<(String, String)>)
    ensures
        final(out)@ == old(out)@ + enc_str_map(m.deep_view()),
{
    let ghost dv = m.deep_view();
    push_char(out, '{');
    let n = m.len();
    let mut i: usize = 0;
    proof {
        assert(out@ =~= old(out)@ + seq!['{'] + joined_str_entries(dv, 0));
    }
    while i < n
        invariant
            n == m@.len(),
            dv == m.deep_view(),
            dv.len() == n,
            i <= n,
            out@ == old(out)@ + seq!['{'] + joined_str_entries(dv, i as int),
        decreases n - i,
    {
        proof {
            assert(dv[i as int] == m@[i as int].deep_view());
        }
        if i > 0 {
            push_char(out, ',');
        }
        push_quoted(out, m[i].0.as_str());
        push_char(out, ':');
        push_quoted(out, m[i].1.as_str());
        proof {
            if i > 0 {
                assert(joined_str_entries(dv, i + 1) == joined_str_entries(dv, i as int) + seq![
                    ',',
                ] + enc_string(dv[i as int].0) + seq![':'] + enc_string(dv[i as int].1));
                assert(out@ =~= old(out)@ + seq!['{'] + joined_str_entries(dv, i + 1));
            } else {
                assert(joined_str_entries(dv, 1) == enc_string(dv[0].0) + seq![':'] + enc_string(
                    dv[0].1,
                ));
                assert(out@ =~= old(out)@ + seq!['{'] + joined_str_entries(dv, 1));
            }
        }
        i = i + 1;
    }
    push_char(out, '}');
    proof {
        lemma_joined_str_entries_full(dv);
        assert(out@ =~= old(out)@ + enc_str_map(dv));
    }
}

/// The first `i` numeric-map entries, rendered and separated.
pub open spec fn joined_u32_entries(m: Seq<(Seq<char>, u32)>, i: int) -> Seq<char>
    decreases i,
{
    if i <= 0 {
        Seq::empty()
    } else if i == 1 {
        enc_string(m[0].0) + seq![':'] + dec_digits(m[0].1 as nat)
    } else {
        joined_u32_entries(m, i - 1) + seq![','] + enc_string(m[i - 1].0) + seq![':'] + dec_digits(
            m[i - 1].1 as nat,
        )
    }
}

proof fn lemma_joined_u32_entries_full(m: Seq<(Seq<char>, u32)>)
    ensures
        joined_u32_entries(m, m.len() as int) == enc_u32_entries(m),
    decreases m.len(),
{
    if m.len() <= 1 {
    } else {
        lemma_joined_u32_entries_full(m.drop_first());
        lemma_joined_u32_entries_shift(m, m.len() as int);
    }
}

proof fn lemma_joined_u32_entries_shift(m: Seq<(Seq<char>, u32)>, i: int)
    requires
        2 <= i <= m.len(),
    ensures
        joined_u32_entries(m, i) == enc_string(m[0].0) + seq![':'] + dec_digits(m[0].1 as nat)
            + seq![','] + joined_u32_entries(m.drop_first(), i - 1),
    decreases i,
{
    let h = enc_string(m[0].0) + seq![':'] + dec_digits(m[0].1 as nat);
    if i == 2 {
        assert(m.drop_first()[0] == m[1]);
        assert(joined_u32_entries(m, 2) == joined_u32_entries(m, 1) + seq![','] + enc_string(
            m[1].0,
        ) + seq![':'] + dec_digits(m[1].1 as nat));
        assert(joined_u32_entries(m, 1) == h);
        assert(joined_u32_entries(m.drop_first(), 1) == enc_string(m.drop_first()[0].0) + seq![':']
            + dec_digits(m.drop_first()[0].1 as nat));
        assert(h + seq![','] + enc_string(m[1].0) + seq![':'] + dec_digits(m[1].1 as nat) =~= h
            + seq![','] + joined_u32_entries(m.drop_first(), 1));
    } else {
        lemma_joined_u32_entries_shift(m, i - 1);
        assert(m.drop_first()[i - 2] == m[i - 1]);
        assert(joined_u32_entries(m, i) == joined_u32_entries(m, i - 1) + seq![','] + enc_string(
            m[i - 1].0,
        ) + seq![':'] + dec_digits(m[i - 1].1 as nat));
        assert(joined_u32_entries(m.drop_first(), i - 1) == joined_u32_entries(
            m.drop_first(),
            i - 2,
        ) + seq![','] + enc_string(m.drop_first()[i - 2].0) + seq![':'] + dec_digits(
            m.drop_first()[i - 2].1 as nat,
        ));
        assert((h + seq![','] + joined_u32_entries(m.drop_first(), i - 2)) + seq![',']
            + enc_string(m[i - 1].0) + seq![':'] + dec_digits(m[i - 1].1 as nat) =~= h + seq![','] + (
        joined_u32_entries(m.drop_first(), i - 2) + seq![','] + enc_string(
            m.drop_first()[i - 2].0,
        ) + seq![':'] + dec_digits(m.drop_first()[i - 2].1 as nat)));
    }
}

/// Renders a map with numeric values.
fn push_u32_map(out: &mut String, m: &Vec<(String, u32)>)
    ensures
        final(out)@ == old(out)@ + enc_u32_map(m.deep_view()),
{
    let ghost dv = m.deep_view();
    push_char(out, '{');
    let n = m.len();
    let mut i: usize = 0;
    proof {
        assert(out@ =~= old(out)@ + seq!['{'] + joined_u32_entries(dv, 0));
    }
    while i < n
        invariant
            n == m@.len(),
            dv == m.deep_view(),
            dv.len() == n,
            i <= n,
            out@ == old(out)@ + seq!['{'] + joined_u32_entries(dv, i as int),
        decreases n - i,
    {
        proof {
            assert(dv[i as int] == m@[i as int].deep_view());
        }
        if i > 0 {
            push_char(out, ',');
        }
        push_quoted(out, m[i].0.as_str());
        push_char(out, ':');
        push_u32(out, m[i].1);
        proof {
            if i > 0 {
                assert(joined_u32_entries(dv, i + 1) == joined_u32_entries(dv, i as int) + seq![
                    ',',
                ] + enc_string(dv[i as int].0) + seq![':'] + dec_digits(dv[i as int].1 as nat));
                assert(out@ =~= old(out)@ + seq!['{'] + joined_u32_entries(dv, i + 1));
            } else {
                assert(joined_u32_entries(dv, 1) == enc_string(dv[0].0) + seq![':'] + dec_digits(
                    dv[0].1 as nat,
                ));
                assert(out@ =~= old(out)@ + seq!['{'] + joined_u32_entries(dv, 1));
            }
        }
        i = i + 1;
    }
    push_char(out, '}');
    proof {
        lemma_joined_u32_entries_full(dv);
        assert(out@ =~= old(out)@ + enc_u32_map(dv));
    }
}

/// Renders the canonical persisted form of the policy. The caller writes
/// the text to the settings file; a later `load_settings` of that text
/// yields the same policy back.
pub fn save_settings(settings: &AppSettings) -> (r: String)
    ensures
        r@ == enc_settings(settings@),
{
    let mut out = String::new();
    push_lit(&mut out, "{\"auto_minimize_items\":");
    push_str_array(&mut out, &settings.auto_minimize_items);
    push_lit(&mut out, ",\"process_name_mappings\":");
    push_str_map(&mut out, &settings.process_name_mappings);
    push_lit(&mut out, ",\"minimize_behaviors\":");
    push_str_map(&mut out, &settings.minimize_behaviors);
    push_lit(&mut out, ",\"minimize_delays\":");
    push_u32_map(&mut out, &settings.minimize_delays);
    push_lit(&mut out, ",\"auto_exit_after_minimize\":");
    if settings.auto_exit_after_minimize {
        push_lit(&mut out, "true");
    } else {
        push_lit(&mut out, "false");
    }
    push_char(&mut out, '}');
    proof {
        assert("{\"auto_minimize_items\":"@ =~= seq!['{'] + "\"auto_minimize_items\":"@) by {
            reveal_strlit("{\"auto_minimize_items\":");
            reveal_strlit("\"auto_minimize_items\":");
        }
        assert(out@ =~= enc_settings(settings@));
    }
    out
}

// ---------- parsing, specification ----------
/// The value of a hex digit as the renderer writes them; -1 otherwise.
pub open spec fn hex_val(c: char) -> int {
    if c == '0' {
        0
    } else if c == '1' {
        1
    } else if c == '2' {
        2
    } else if c == '3' {
        3
    } else if c == '4' {
        4
    } else if c == '5' {
        5
    } else if c == '6' {
        6
    } else if c == '7' {
        7
    } else if c == '8' {
        8
    } else if c == '9' {
        9
    } else if c == 'a' {
        10
    } else if c == 'b' {
        11
    } else if c == 'c' {
        12
    } else if c == 'd' {
        13
    } else if c == 'e' {
        14
    } else if c == 'f' {
        15
    } else {
        -1
    }
}

pub open spec fn is_hex(c: char) -> bool {
    hex_val(c) >= 0
}

/// A string body up to its closing quote: the decoded text and the
/// number of characters consumed, closing quote included.
pub open spec fn sp_string(s: Seq<char>) -> Option<(Seq<char>, int)>
    decreases s.len(),
{
    if s.len() == 0 {
        None
    } else if s[0] == '"' {
        Some((Seq::empty(), 1))
    } else if s[0] == '\\' {
        if s.len() >= 2 && (s[1] == '"' || s[1] == '\\') {
            match sp_string(s.skip(2)) {
                Some(t) => Some((seq![s[1]] + t.0, 2 + t.1)),
                None => None,
            }
        } else if s.len() >= 6 && s[1] == 'u' && s[2] == '0' && s[3] == '0' && is_hex(s[4])
            && is_hex(s[5]) {
            match sp_string(s.skip(6)) {
                Some(t) => Some(
                    (seq![((16 * hex_val(s[4]) + hex_val(s[5])) as char)] + t.0, 6 + t.1),
                ),
                None => None,
            }
        } else {
            None
        }
    } else {
        match sp_string(s.skip(1)) {
            Some(t) => Some((seq![s[0]] + t.0, 1 + t.1)),
            None => None,
        }
    }
}

pub open spec fn is_digit(c: char) -> bool {
    0 <= hex_val(c) <= 9
}

/// The run of digits at the front.
pub open spec fn digits_len(s: Seq<char>) -> nat
    decreases s.len(),
{
    if s.len() > 0 && is_digit(s[0]) {
        1 + digits_len(s.drop_first())
    } else {
        0
    }
}

/// The number the digit string denotes, most significant digit first.
pub open spec fn nat_of_digits(d: Seq<char>) -> nat
    decreases d.len(),
{
    if d.len() == 0 {
        0
    } else {
        nat_of_digits(d.drop_last()) * 10 + (hex_val(d.last()) as nat)
    }
}

/// A decimal number that fits in `u32`; anything else fails.
pub open spec fn sp_u32(s: Seq<char>) -> Option<(u32, int)> {
    let k = digits_len(s);
    if k == 0 {
        None
    } else if nat_of_digits(s.take(k as int)) > u32::MAX {
        None
    } else {
        Some(((nat_of_digits(s.take(k as int)) as u32), k as int))
    }
}

pub open spec fn sp_bool(s: Seq<char>) -> Option<(bool, int)> {
    if "true"@.is_prefix_of(s) {
        Some((true, 4))
    } else if "false"@.is_prefix_of(s) {
        Some((false, 5))
    } else {
        None
    }
}

/// The elements of a nonempty string array, after the opening bracket:
/// quoted strings separated by commas, ended by the closing bracket.
pub open spec fn sp_str_items(s: Seq<char>) -> Option<(Seq<Seq<char>>, int)>
    decreases s.len(),
{
    if s.len() == 0 || s[0] != '"' {
        None
    } else {
        match sp_string(s.skip(1)) {
            None => None,
            Some(t) => {
                let j = 1 + t.1;
                if t.1 >= 1 && j < s.len() && s[j] == ']' {
                    Some((seq![t.0], j + 1))
                } else if t.1 >= 1 && j + 1 < s.len() && s[j] == ',' {
                    match sp_str_items(s.skip(j + 1)) {
                        None => None,
                        Some(r) => Some((seq![t.0] + r.0, j + 1 + r.1)),
                    }
                } else {
                    None
                }
            },
        }
    }
}

pub open spec fn sp_str_array(s: Seq<char>) -> Option<(Seq<Seq<char>>, int)> {
    if s.len() >= 2 && s[0] == '[' && s[1] == ']' {
        Some((Seq::empty(), 2))
    } else if s.len() >= 1 && s[0] == '[' {
        match sp_str_items(s.skip(1)) {
            None => None,
            Some(r) => Some((r.0, 1 + r.1)),
        }
    } else {
        None
    }
}

/// The entries of a nonempty string-valued object, after the opening
/// brace.
pub open spec fn sp_str_entries(s: Seq<char>) -> Option<(Seq<(Seq<char>, Seq<char>)>, int)>
    decreases s.len(),
{
    if s.len() == 0 || s[0] != '"' {
        None
    } else {
        match sp_string(s.skip(1)) {
            None => None,
            Some(k) => {
                let j = 1 + k.1;
                if k.1 >= 1 && j + 1 < s.len() && s[j] == ':' && s[j + 1] == '"' {
                    match sp_string(s.skip(j + 2)) {
                        None => None,
                        Some(v) => {
                            let w = j + 2 + v.1;
                            if v.1 >= 1 && w < s.len() && s[w] == '}' {
                                Some((seq![(k.0, v.0)], w + 1))
                            } else if v.1 >= 1 && w + 1 < s.len() && s[w] == ',' {
                                match sp_str_entries(s.skip(w + 1)) {
                                    None => None,
                                    Some(r) => Some((seq![(k.0, v.0)] + r.0, w + 1 + r.1)),
                                }
                            } else {
                                None
                            }
                        },
                    }
                } else {
                    None
                }
            },
        }
    }
}

pub open spec fn sp_str_map(s: Seq<char>) -> Option<(Seq<(Seq<char>, Seq<char>)>, int)> {
    if s.len() >= 2 && s[0] == '{' && s[1] == '}' {
        Some((Seq::empty(), 2))
    } else if s.len() >= 1 && s[0] == '{' {
        match sp_str_entries(s.skip(1)) {
            None => None,
            Some(r) => Some((r.0, 1 + r.1)),
        }
    } else {
        None
    }
}

/// The entries of a nonempty numeric-valued object, after the opening
/// brace.
pub open spec fn sp_u32_entries(s: Seq<char>) -> Option<(Seq<(Seq<char>, u32)>, int)>
    decreases s.len(),
{
    if s.len() == 0 || s[0] != '"' {
        None
    } else {
        match sp_string(s.skip(1)) {
            None => None,
            Some(k) => {
                let j = 1 + k.1;
                if k.1 >= 1 && j < s.len() && s[j] == ':' {
                    match sp_u32(s.skip(j + 1)) {
                        None => None,
                        Some(v) => {
                            let w = j + 1 + v.1;
                            if v.1 >= 1 && w < s.len() && s[w] == '}' {
                                Some((seq![(k.0, v.0)], w + 1))
                            } else if v.1 >= 1 && w + 1 < s.len() && s[w] == ',' {
                                match sp_u32_entries(s.skip(w + 1)) {
                                    None => None,
                                    Some(r) => Some((seq![(k.0, v.0)] + r.0, w + 1 + r.1)),
                                }
                            } else {
                                None
                            }
                        },
                    }
                } else {
                    None
                }
            },
        }
    }
}

pub open spec fn sp_u32_map(s: Seq<char>) -> Option<(Seq<(Seq<char>, u32)>, int)> {
    if s.len() >= 2 && s[0] == '{' && s[1] == '}' {
        Some((Seq::empty(), 2))
    } else if s.len() >= 1 && s[0] == '{' {
        match sp_u32_entries(s.skip(1)) {
            None => None,
            Some(r) => Some((r.0, 1 + r.1)),
        }
    } else {
        None
    }
}

/// The whole persisted object, canonical field order, whole input.
pub open spec fn sp_settings(s: Seq<char>) -> Option<SettingsModel> {
    if !"{\"auto_minimize_items\":"@.is_prefix_of(s) {
        None
    } else {
        let p0 = "{\"auto_minimize_items\":"@.len() as int;
        match sp_str_array(s.skip(p0)) {
            None => None,
            Some(items) => {
                let p1 = p0 + items.1;
                if !(items.1 >= 1 && ",\"process_name_mappings\":"@.is_prefix_of(s.skip(p1))) {
                    None
                } else {
                    let p2 = p1 + ",\"process_name_mappings\":"@.len();
                    match sp_str_map(s.skip(p2)) {
                        None => None,
                        Some(mappings) => {
                            let p3 = p2 + mappings.1;
                            if !(mappings.1 >= 1 && ",\"minimize_behaviors\":"@.is_prefix_of(
                                s.skip(p3),
                            )) {
                                None
                            } else {
                                let p4 = p3 + ",\"minimize_behaviors\":"@.len();
                                match sp_str_map(s.skip(p4)) {
                                    None => None,
                                    Some(behaviors) => {
                                        let p5 = p4 + behaviors.1;
                                        if !(behaviors.1 >= 1
                                            && ",\"minimize_delays\":"@.is_prefix_of(s.skip(p5))) {
                                            None
                                        } else {
                                            let p6 = p5 + ",\"minimize_delays\":"@.len();
                                            match sp_u32_map(s.skip(p6)) {
                                                None => None,
                                                Some(delays) => {
                                                    let p7 = p6 + delays.1;
                                                    if !(delays.1 >= 1
                                                        && ",\"auto_exit_after_minimize\":"@.is_prefix_of(
                                                        s.skip(p7),
                                                    )) {
                                                        None
                                                    } else {
                                                        let p8 = p7
                                                            + ",\"auto_exit_after_minimize\":"@.len();
                                                        match sp_bool(s.skip(p8)) {
                                                            None => None,
                                                            Some(b) => {
                                                                let p9 = p8 + b.1;
                                                                if p9 + 1 == s.len() && s[p9]
                                                                    == '}' {
                                                                    Some(
                                                                        SettingsModel {
                                                                            auto_minimize_items: items.0,
                                                                            process_name_mappings: mappings.0,
                                                                            minimize_behaviors: behaviors.0,
                                                                            minimize_delays: delays.0,
                                                                            auto_exit_after_minimize: b.0,
                                                                        },
                                                                    )
                                                                } else {
                                                                    None
                                                                }
                                                            },
                                                        }
                                                    }
                                                },
                                            }
                                        }
                                    },
                                }
                            }
                        },
                    }
                }
            },
        }
    }
}

/// A key never bound twice, an id never listed twice.
pub open spec fn model_wf(m: SettingsModel) -> bool {
    &&& m.auto_minimize_items.no_duplicates()
    &&& distinct_keys(m.process_name_mappings)
    &&& distinct_keys(m.minimize_behaviors)
    &&& distinct_keys(m.minimize_delays)
}

/// What a settings file decodes to: the parsed model if the whole text is
/// the canonical form of a well-formed policy, else nothing.
pub open spec fn decode_spec(s: Seq<char>) -> Option<SettingsModel> {
    match sp_settings(s) {
        Some(m) => if model_wf(m) {
            Some(m)
        } else {
            None
        },
        None => None,
    }
}

// ---------- parsing, executable ----------
/// The characters of a string, as a vector.
fn chars_of(s: &str) -> (r: Vec<char>)
    ensures
        r@ == s@,
{
    let n = s.unicode_len();
    let mut r: Vec<char> = Vec::new();
    let mut i: usize = 0;
    while i < n
        invariant
            n == s@.len(),
            i <= n,
            r@ == s@.take(i as int),
        decreases n - i,
    {
        r.push(s.get_char(i));
        proof {
            assert(s@.take(i + 1) =~= s@.take(i as int).push(s@[i as int]));
        }
        i = i + 1;
    }
    proof {
        assert(s@.take(n as int) =~= s@);
    }
    r
}

/// Does `lit` stand at position `i`?
fn match_lit(s: &Vec<char>, i: usize, lit: &str) -> (r: bool)
    requires
        i <= s@.len(),
    ensures
        r == lit@.is_prefix_of(s@.skip(i as int)),
{
    let nl = lit.unicode_len();
    if nl > s.len() - i {
        proof {
            assert(s@.skip(i as int).len() == s@.len() - i);
        }
        return false;
    }
    let mut j: usize = 0;
    while j < nl
        invariant
            nl == lit@.len(),
            i + nl <= s@.len(),
            s@.len() <= usize::MAX,
            j <= nl,
            forall|w: int| 0 <= w < j ==> s@[i + w] == lit@[w],
        decreases nl - j,
    {
        if s[i + j] != lit.get_char(j) {
            proof {
                assert(s@.skip(i as int)[j as int] == s@[i + j]);
            }
            return false;
        }
        j = j + 1;
    }
    proof {
        assert(lit@ =~= s@.skip(i as int).subrange(0, lit@.len() as int));
    }
    true
}

fn hex_val_of(c: char) -> (r: Option<u8>)
    ensures
        match r {
            Some(v) => is_hex(c) && v == hex_val(c),
            None => !is_hex(c),
        },
{
    match c {
        '0' => Some(0),
        '1' => Some(1),
        '2' => Some(2),
        '3' => Some(3),
        '4' => Some(4),
        '5' => Some(5),
        '6' => Some(6),
        '7' => Some(7),
        '8' => Some(8),
        '9' => Some(9),
        'a' => Some(10),
        'b' => Some(11),
        'c' => Some(12),
        'd' => Some(13),
        'e' => Some(14),
        'f' => Some(15),
        _ => None,
    }
}

/// Parses a string body at `i` (just past the opening quote).
fn p_string(s: &Vec<char>, i: usize) -> (r: Option<(String, usize)>)
    requires
        i <= s@.len(),
    ensures
        match r {
            Some(t) => i < t.1 <= s@.len() && sp_string(s@.skip(i as int)) == Some(
                (t.0@, t.1 - i),
            ),
            None => sp_string(s@.skip(i as int)) is None,
        },
    decreases s@.len() - i,
{
    let ghost rest = s@.skip(i as int);
    if i >= s.len() {
        proof {
            assert(rest.len() == 0);
        }
        return None;
    }
    proof {
        assert(rest[0] == s@[i as int]);
        assert(rest.len() == s@.len() - i);
    }
    let c = s[i];
    if c == '"' {
        let out = String::new();
        proof {
            assert(out@ =~= Seq::<char>::empty());
        }
        return Some((out, i + 1));
    }
    if c == '\\' {
        if i + 1 < s.len() && (s[i + 1] == '"' || s[i + 1] == '\\') {
            proof {
                assert(rest[1] == s@[i + 1]);
                assert(rest.skip(2) =~= s@.skip(i + 2));
            }
            match p_string(s, i + 2) {
                Some((t, j)) => {
                    let mut out = String::new();
                    crate::text::push_char(&mut out, s[i + 1]);
                    out.append(t.as_str());
                    proof {
                        assert(out@ =~= seq![s@[i + 1]] + t@);
                    }
                    return Some((out, j));
                },
                None => {
                    return None;
                },
            }
        } else if s.len() - i > 5 && s[i + 1] == 'u' && s[i + 2] == '0' && s[i + 3] == '0' {
            let h1 = match hex_val_of(s[i + 4]) {
                Some(v) => v,
                None => {
                    proof {
                        assert(rest[1] == s@[i + 1]);
                        assert(rest[4] == s@[i + 4]);
                        assert(rest.len() >= 6);
                    }
                    return None;
                },
            };
            let h2 = match hex_val_of(s[i + 5]) {
                Some(v) => v,
                None => {
                    proof {
                        assert(rest[1] == s@[i + 1]);
                        assert(rest[5] == s@[i + 5]);
                        assert(rest.len() >= 6);
                    }
                    return None;
                },
            };
            proof {
                assert(rest[1] == s@[i + 1]);
                assert(rest[2] == s@[i + 2]);
                assert(rest[3] == s@[i + 3]);
                assert(rest[4] == s@[i + 4]);
                assert(rest[5] == s@[i + 5]);
                assert(rest.skip(6) =~= s@.skip(i + 6));
            }
            let ch = ((16 * h1 + h2) as u8) as char;
            proof {
                assert(ch == ((16 * hex_val(s@[i + 4]) + hex_val(s@[i + 5])) as char));
            }
            match p_string(s, i + 6) {
                Some((t, j)) => {
                    let mut out = String::new();
                    crate::text::push_char(&mut out, ch);
                    out.append(t.as_str());
                    proof {
                        assert(out@ =~= seq![ch] + t@);
                    }
                    return Some((out, j));
                },
                None => {
                    return None;
                },
            }
        } else {
            proof {
                if rest.len() >= 2 {
                    assert(rest[1] == s@[i + 1]);
                }
                if rest.len() >= 6 {
                    assert(rest[2] == s@[i + 2]);
                    assert(rest[3] == s@[i + 3]);
                    assert(rest[4] == s@[i + 4]);
                    assert(rest[5] == s@[i + 5]);
                }
            }
            return None;
        }
    }
    proof {
        assert(rest.skip(1) =~= s@.skip(i + 1));
    }
    match p_string(s, i + 1) {
        Some((t, j)) => {
            let mut out = String::new();
            crate::text::push_char(&mut out, c);
            out.append(t.as_str());
            proof {
                assert(out@ =~= seq![c] + t@);
            }
            Some((out, j))
        },
        None => None,
    }
}

/// The run of digits beginning at `j` within the suffix at `i` measures
/// the digit prefix of that suffix.
proof fn lemma_digits_len_at(t: Seq<char>, k: int)
    requires
        0 <= k <= t.len(),
        forall|w: int| 0 <= w < k ==> is_digit(#[trigger] t[w]),
        k < t.len() ==> !is_digit(t[k as int]),
    ensures
        digits_len(t) == k,
    decreases k,
{
    if k == 0 {
    } else {
        assert(is_digit(t[0]));
        assert(forall|w: int| 0 <= w < t.drop_first().len() ==> #[trigger] t.drop_first()[w]
            == t[w + 1]);
        lemma_digits_len_at(t.drop_first(), k - 1);
    }
}

/// Reading more digits never shrinks the number.
proof fn lemma_nat_digits_mono(d: Seq<char>, m: int)
    requires
        0 <= m <= d.len(),
    ensures
        nat_of_digits(d.take(m)) <= nat_of_digits(d),
    decreases d.len() - m,
{
    if m == d.len() {
        assert(d.take(m) =~= d);
    } else {
        assert(d.take(m + 1).drop_last() =~= d.take(m));
        assert(d.take(m + 1).last() == d[m]);
        assert(nat_of_digits(d.take(m + 1)) == nat_of_digits(d.take(m)) * 10 + (hex_val(
            d[m],
        ) as nat));
        assert(nat_of_digits(d.take(m)) * 10 >= nat_of_digits(d.take(m)));
        lemma_nat_digits_mono(d, m + 1);
    }
}

/// Parses a decimal `u32` at `i`.
fn p_u32(s: &Vec<char>, i: usize) -> (r: Option<(u32, usize)>)
    requires
        i <= s@.len(),
    ensures
        match r {
            Some(t) => i < t.1 <= s@.len() && sp_u32(s@.skip(i as int)) == Some((t.0, t.1 - i)),
            None => sp_u32(s@.skip(i as int)) is None,
        },
{
    let ghost rest = s@.skip(i as int);
    let n = s.len();
    let mut j = i;
    while j < n && is_digit_at(s, j)
        invariant
            n == s@.len(),
            i <= j <= n,
            rest == s@.skip(i as int),
            forall|w: int| i <= w < j ==> is_digit(#[trigger] s@[w]),
        decreases n - j,
    {
        j = j + 1;
    }
    proof {
        assert(forall|w: int| 0 <= w < j - i ==> rest[w] == s@[i + w]);
        assert(forall|w: int| 0 <= w < j - i ==> is_digit(#[trigger] rest[w]));
        if j < n {
            assert(rest[j - i] == s@[j as int]);
        }
        lemma_digits_len_at(rest, j - i);
    }
    if j == i {
        return None;
    }
    let ghost d = rest.take(j - i);
    let mut acc: u64 = 0;
    let mut m = i;
    proof {
        assert(d.take(0) =~= Seq::<char>::empty());
    }
    while m < j
        invariant
            i <= m <= j <= s@.len(),
            rest == s@.skip(i as int),
            digits_len(rest) == j - i,
            d == rest.take(j - i),
            d.len() == j - i,
            forall|w: int| 0 <= w < d.len() ==> #[trigger] d[w] == s@[i + w],
            forall|w: int| 0 <= w < d.len() ==> is_digit(#[trigger] d[w]),
            acc == nat_of_digits(d.take(m - i)),
            acc <= u32::MAX,
        decreases j - m,
    {
        let dv = match hex_val_of(s[m]) {
            Some(v) => v,
            None => {
                proof {
                    assert(d[m - i] == s@[m as int]);
                    assert(is_digit(d[m - i]));
                    assert(false);
                }
                return None;  // unreachable: the run is all digits
            },
        };
        let acc2: u64 = acc * 10 + (dv as u64);
        proof {
            assert(d.take(m - i + 1).drop_last() =~= d.take(m - i));
            assert(d.take(m - i + 1).last() == d[m - i]);
            assert(d[m - i] == s@[m as int]);
            assert(is_digit(d[m - i]));
            assert(acc2 == nat_of_digits(d.take(m - i + 1)));
        }
        if acc2 > 0xFFFFFFFF {
            proof {
                lemma_nat_digits_mono(d, m - i + 1);
                assert(nat_of_digits(d) > u32::MAX);
            }
            return None;
        }
        acc = acc2;
        m = m + 1;
    }
    proof {
        assert(d.take(j - i) =~= d);
        assert(nat_of_digits(d) == acc);
        assert(digits_len(rest) == j - i);
        assert(sp_u32(rest) == Some((acc as u32, (j - i) as int)));
    }
    Some((acc as u32, j))
}

fn is_digit_at(s: &Vec<char>, j: usize) -> (r: bool)
    requires
        j < s@.len(),
    ensures
        r == is_digit(s@[j as int]),
{
    match hex_val_of(s[j]) {
        Some(v) => v <= 9,
        None => false,
    }
}

/// Parses `true` or `false` at `i`.
fn p_bool(s: &Vec<char>, i: usize) -> (r: Option<(bool, usize)>)
    requires
        i <= s@.len(),
    ensures
        match r {
            Some(t) => i < t.1 <= s@.len() && sp_bool(s@.skip(i as int)) == Some((t.0, t.1 - i)),
            None => sp_bool(s@.skip(i as int)) is None,
        },
{
    proof {
        reveal_strlit("true");
        reveal_strlit("false");
    }
    let n = s.len();
    proof {
        assert(s@.skip(i as int).len() == s@.len() - i);
    }
    if match_lit(s, i, "true") {
        proof {
            assert(s@.skip(i as int).len() >= 4);
        }
        Some((true, i + 4))
    } else if match_lit(s, i, "false") {
        proof {
            assert(s@.skip(i as int).len() >= 5);
        }
        Some((false, i + 5))
    } else {
        None
    }
}

/// Parses the elements of a nonempty string array at `i` (just past the
/// opening bracket), through the closing bracket.
fn p_str_items(s: &Vec<char>, i: usize) -> (r: Option<(Vec<String>, usize)>)
    requires
        i <= s@.len(),
    ensures
        match r {
            Some(t) => i < t.1 <= s@.len() && sp_str_items(s@.skip(i as int)) == Some(
                (t.0.deep_view(), t.1 - i),
            ),
            None => sp_str_items(s@.skip(i as int)) is None,
        },
    decreases s@.len() - i,
{
    let ghost rest = s@.skip(i as int);
    if i >= s.len() || s[i] != '"' {
        proof {
            if rest.len() > 0 {
                assert(rest[0] == s@[i as int]);
            }
        }
        return None;
    }
    proof {
        assert(rest[0] == s@[i as int]);
        assert(rest.skip(1) =~= s@.skip(i + 1));
    }
    let (x, j) = match p_string(s, i + 1) {
        Some(t) => t,
        None => {
            return None;
        },
    };
    proof {
        assert(j - (i + 1) >= 1);
        if j < s@.len() {
            assert(rest[j - i] == s@[j as int]);
        }
    }
    if j < s.len() && s[j] == ']' {
        let mut out: Vec<String> = Vec::new();
        out.push(x);
        proof {
            assert(out.deep_view() =~= seq![out@[0]@]);
        }
        return Some((out, j + 1));
    }
    if s.len() - j > 1 && s[j] == ',' {
        proof {
            assert(rest.skip(j + 1 - i) =~= s@.skip(j + 1));
        }
        match p_str_items(s, j + 1) {
            Some((xs, w)) => {
                let mut out: Vec<String> = Vec::new();
                out.push(x);
                let ghost xs_dv = xs.deep_view();
                let mut tail = xs;
                out.append(&mut tail);
                proof {
                    assert(out.deep_view() =~= seq![out@[0]@] + xs_dv) by {
                        let ov = out.deep_view();
                        assert(ov.len() == 1 + xs_dv.len());
                        assert(forall|a: int|
                            0 <= a < ov.len() ==> #[trigger] ov[a] == out@[a]@);
                        assert(forall|a: int|
                            0 <= a < xs_dv.len() ==> #[trigger] xs_dv[a] == out@[a + 1]@);
                    }
                }
                return Some((out, w));
            },
            None => {
                return None;
            },
        }
    }
    proof {
        if j + 1 >= s@.len() && j < s@.len() {
            assert(rest[j - i] == s@[j as int]);
        }
    }
    None
}

fn p_str_array(s: &Vec<char>, i: usize) -> (r: Option<(Vec<String>, usize)>)
    requires
        i <= s@.len(),
    ensures
        match r {
            Some(t) => i < t.1 <= s@.len() && sp_str_array(s@.skip(i as int)) == Some(
                (t.0.deep_view(), t.1 - i),
            ),
            None => sp_str_array(s@.skip(i as int)) is None,
        },
{
    let ghost rest = s@.skip(i as int);
    proof {
        if rest.len() >= 1 {
            assert(rest[0] == s@[i as int]);
        }
        if rest.len() >= 2 {
            assert(rest[1] == s@[i + 1]);
        }
    }
    if s.len() - i > 1 && s[i] == '[' && s[i + 1] == ']' {
        let out: Vec<String> = Vec::new();
        proof {
            assert(out.deep_view() =~= Seq::<Seq<char>>::empty());
        }
        return Some((out, i + 2));
    }
    if i < s.len() && s[i] == '[' {
        proof {
            assert(rest.skip(1) =~= s@.skip(i + 1));
        }
        match p_str_items(s, i + 1) {
            Some((xs, j)) => {
                return Some((xs, j));
            },
            None => {
                return None;
            },
        }
    }
    None
}

/// Parses the entries of a nonempty string-valued object at `i` (just
/// past the opening brace), through the closing brace.
fn p_str_entries(s: &Vec<char>, i: usize) -> (r: Option<(Vec<(String, String)>, usize)>)
    requires
        i <= s@.len(),
    ensures
        match r {
            Some(t) => i < t.1 <= s@.len() && sp_str_entries(s@.skip(i as int)) == Some(
                (t.0.deep_view(), t.1 - i),
            ),
            None => sp_str_entries(s@.skip(i as int)) is None,
        },
    decreases s@.len() - i,
{
    let ghost rest = s@.skip(i as int);
    if i >= s.len() || s[i] != '"' {
        proof {
            if rest.len() > 0 {
                assert(rest[0] == s@[i as int]);
            }
        }
        return None;
    }
    proof {
        assert(rest[0] == s@[i as int]);
        assert(rest.skip(1) =~= s@.skip(i + 1));
    }
    let (k, j) = match p_string(s, i + 1) {
        Some(t) => t,
        None => {
            return None;
        },
    };
    proof {
        if j < s@.len() {
            assert(rest[j - i] == s@[j as int]);
        }
        if j + 1 < s@.len() {
            assert(rest[j + 1 - i] == s@[j + 1]);
        }
    }
    if !(s.len() - j > 1 && s[j] == ':' && s[j + 1] == '"') {
        return None;
    }
    proof {
        assert(rest.skip(j + 2 - i) =~= s@.skip(j + 2));
    }
    let (v, w) = match p_string(s, j + 2) {
        Some(t) => t,
        None => {
            return None;
        },
    };
    proof {
        if w < s@.len() {
            assert(rest[w - i] == s@[w as int]);
        }
    }
    if w < s.len() && s[w] == '}' {
        let mut out: Vec<(String, String)> = Vec::new();
        out.push((k, v));
        proof {
            assert(out.deep_view() =~= seq![out@[0].deep_view()]);
        }
        return Some((out, w + 1));
    }
    if s.len() - w > 1 && s[w] == ',' {
        proof {
            assert(rest.skip(w + 1 - i) =~= s@.skip(w + 1));
        }
        match p_str_entries(s, w + 1) {
            Some((xs, z)) => {
                let mut out: Vec<(String, String)> = Vec::new();
                out.push((k, v));
                let ghost xs_dv = xs.deep_view();
                let mut tail = xs;
                out.append(&mut tail);
                proof {
                    assert(out.deep_view() =~= seq![out@[0].deep_view()] + xs_dv) by {
                        let ov = out.deep_view();
                        assert(ov.len() == 1 + xs_dv.len());
                        assert(forall|a: int|
                            0 <= a < ov.len() ==> #[trigger] ov[a] == out@[a].deep_view());
                        assert(forall|a: int|
                            0 <= a < xs_dv.len() ==> #[trigger] xs_dv[a] == out@[a
                                + 1].deep_view());
                    }
                }
                return Some((out, z));
            },
            None => {
                return None;
            },
        }
    }
    None
}

fn p_str_map(s: &Vec<char>, i: usize) -> (r: Option<(Vec<(String, String)>, usize)>)
    requires
        i <= s@.len(),
    ensures
        match r {
            Some(t) => i < t.1 <= s@.len() && sp_str_map(s@.skip(i as int)) == Some(
                (t.0.deep_view(), t.1 - i),
            ),
            None => sp_str_map(s@.skip(i as int)) is None,
        },
{
    let ghost rest = s@.skip(i as int);
    proof {
        if rest.len() >= 1 {
            assert(rest[0] == s@[i as int]);
        }
        if rest.len() >= 2 {
            assert(rest[1] == s@[i + 1]);
        }
    }
    if s.len() - i > 1 && s[i] == '{' && s[i + 1] == '}' {
        let out: Vec<(String, String)> = Vec::new();
        proof {
            assert(out.deep_view() =~= Seq::<(Seq<char>, Seq<char>)>::empty());
        }
        return Some((out, i + 2));
    }
    if i < s.len() && s[i] == '{' {
        proof {
            assert(rest.skip(1) =~= s@.skip(i + 1));
        }
        match p_str_entries(s, i + 1) {
            Some((xs, j)) => {
                return Some((xs, j));
            },
            None => {
                return None;
            },
        }
    }
    None
}

/// Parses the entries of a nonempty numeric-valued object at `i` (just
/// past the opening brace), through the closing brace.
fn p_u32_entries(s: &Vec<char>, i: usize) -> (r: Option<(Vec<(String, u32)>, usize)>)
    requires
        i <= s@.len(),
    ensures
        match r {
            Some(t) => i < t.1 <= s@.len() && sp_u32_entries(s@.skip(i as int)) == Some(
                (t.0.deep_view(), t.1 - i),
            ),
            None => sp_u32_entries(s@.skip(i as int)) is None,
        },
    decreases s@.len() - i,
{
    let ghost rest = s@.skip(i as int);
    if i >= s.len() || s[i] != '"' {
        proof {
            if rest.len() > 0 {
                assert(rest[0] == s@[i as int]);
            }
        }
        return None;
    }
    proof {
        assert(rest[0] == s@[i as int]);
        assert(rest.skip(1) =~= s@.skip(i + 1));
    }
    let (k, j) = match p_string(s, i + 1) {
        Some(t) => t,
        None => {
            return None;
        },
    };
    proof {
        if j < s@.len() {
            assert(rest[j - i] == s@[j as int]);
        }
    }
    if !(j < s.len() && s[j] == ':') {
        return None;
    }
    proof {
        assert(rest.skip(j + 1 - i) =~= s@.skip(j + 1));
    }
    let (v, w) = match p_u32(s, j + 1) {
        Some(t) => t,
        None => {
            return None;
        },
    };
    proof {
        if w < s@.len() {
            assert(rest[w - i] == s@[w as int]);
        }
    }
    if w < s.len() && s[w] == '}' {
        let mut out: Vec<(String, u32)> = Vec::new();
        out.push((k, v));
        proof {
            assert(out.deep_view() =~= seq![out@[0].deep_view()]);
        }
        return Some((out, w + 1));
    }
    if s.len() - w > 1 && s[w] == ',' {
        proof {
            assert(rest.skip(w + 1 - i) =~= s@.skip(w + 1));
        }
        match p_u32_entries(s, w + 1) {
            Some((xs, z)) => {
                let mut out: Vec<(String, u32)> = Vec::new();
                out.push((k, v));
                let ghost xs_dv = xs.deep_view();
                let mut tail = xs;
                out.append(&mut tail);
                proof {
                    assert(out.deep_view() =~= seq![out@[0].deep_view()] + xs_dv) by {
                        let ov = out.deep_view();
                        assert(ov.len() == 1 + xs_dv.len());
                        assert(forall|a: int|
                            0 <= a < ov.len() ==> #[trigger] ov[a] == out@[a].deep_view());
                        assert(forall|a: int|
                            0 <= a < xs_dv.len() ==> #[trigger] xs_dv[a] == out@[a
                                + 1].deep_view());
                    }
                }
                return Some((out, z));
            },
            None => {
                return None;
            },
        }
    }
    None
}

fn p_u32_map(s: &Vec<char>, i: usize) -> (r: Option<(Vec<(String, u32)>, usize)>)
    requires
        i <= s@.len(),
    ensures
        match r {
            Some(t) => i < t.1 <= s@.len() && sp_u32_map(s@.skip(i as int)) == Some(
                (t.0.deep_view(), t.1 - i),
            ),
            None => sp_u32_map(s@.skip(i as int)) is None,
        },
{
    let ghost rest = s@.skip(i as int);
    proof {
        if rest.len() >= 1 {
            assert(rest[0] == s@[i as int]);
        }
        if rest.len() >= 2 {
            assert(rest[1] == s@[i + 1]);
        }
    }
    if s.len() - i > 1 && s[i] == '{' && s[i + 1] == '}' {
        let out: Vec<(String, u32)> = Vec::new();
        proof {
            assert(out.deep_view() =~= Seq::<(Seq<char>, u32)>::empty());
        }
        return Some((out, i + 2));
    }
    if i < s.len() && s[i] == '{' {
        proof {
            assert(rest.skip(1) =~= s@.skip(i + 1));
        }
        match p_u32_entries(s, i + 1) {
            Some((xs, j)) => {
                return Some((xs, j));
            },
            None => {
                return None;
            },
        }
    }
    None
}

/// No string listed twice.
fn strings_distinct(v: &Vec<String>) -> (r: bool)
    ensures
        r == v.deep_view().no_duplicates(),
{
    let ghost dv = v.deep_view();
    let n = v.len();
    let mut i: usize = 0;
    while i < n
        invariant
            n == v@.len(),
            dv == v.deep_view(),
            dv.len() == n,
            i <= n,
            forall|a: int, b: int| 0 <= a < b < i ==> dv[a] != dv[b],
        decreases n - i,
    {
        let mut j: usize = 0;
        while j < i
            invariant
                n == v@.len(),
                dv == v.deep_view(),
                dv.len() == n,
                j <= i < n,
                forall|a: int| 0 <= a < j ==> dv[a] != dv[i as int],
            decreases i - j,
        {
            proof {
                assert(dv[j as int] == v@[j as int]@);
                assert(dv[i as int] == v@[i as int]@);
            }
            if crate::text::str_eq(v[j].as_str(), v[i].as_str()) {
                proof {
                    assert(!dv.no_duplicates());
                }
                return false;
            }
            j = j + 1;
        }
        i = i + 1;
    }
    proof {
        assert forall|a: int, b: int|
            0 <= a < dv.len() && 0 <= b < dv.len() && a != b implies dv[a] != dv[b] by {
            if a < b {
            } else {
                assert(dv[b] != dv[a]);
            }
        }
    }
    true
}

/// No key bound twice.
fn keys_distinct<V: DeepView>(m: &Vec<(String, V)>) -> (r: bool)
    ensures
        r == distinct_keys(m.deep_view()),
{
    let ghost dv = m.deep_view();
    let n = m.len();
    let mut i: usize = 0;
    while i < n
        invariant
            n == m@.len(),
            dv == m.deep_view(),
            dv.len() == n,
            i <= n,
            forall|a: int, b: int| 0 <= a < b < i ==> (#[trigger] dv[a]).0 != (#[trigger] dv[b]).0,
        decreases n - i,
    {
        let mut j: usize = 0;
        while j < i
            invariant
                n == m@.len(),
                dv == m.deep_view(),
                dv.len() == n,
                j <= i < n,
                forall|a: int| 0 <= a < j ==> (#[trigger] dv[a]).0 != dv[i as int].0,
            decreases i - j,
        {
            proof {
                assert(dv[j as int] == m@[j as int].deep_view());
                assert(dv[i as int] == m@[i as int].deep_view());
            }
            if crate::text::str_eq(m[j].0.as_str(), m[i].0.as_str()) {
                proof {
                    assert(!distinct_keys(dv));
                }
                return false;
            }
            j = j + 1;
        }
        i = i + 1;
    }
    true
}

/// Reads the policy back from the settings file's text. Absence of the
/// file (`None`) or any content that is not the canonical form of a
/// well-formed policy falls back to the all-defaults policy: a load never
/// fails and never prevents startup.
///
/// The persisted form is canonical: exactly what `save_settings` renders,
/// with fixed field order and no insignificant whitespace. Any other
/// spelling of the object — reordered fields, added whitespace, duplicate
/// keys — reads as corruption and yields the defaults, which the
/// tolerant-load policy allows.
#[verifier::rlimit(60)]
pub fn load_settings(content: Option<&str>) -> (r: AppSettings)
    ensures
        r.wf(),
        match content {
            Some(text) => match decode_spec(text@) {
                Some(m) => r@ == m,
                None => r@ == default_model(),
            },
            None => r@ == default_model(),
        },
{
    let text = match content {
        Some(t) => t,
        None => {
            return AppSettings::default();
        },
    };
    let s = chars_of(text);
    let total = s.len();
    let ghost sv = s@;
    proof {
        reveal_strlit("{\"auto_minimize_items\":");
        reveal_strlit(",\"process_name_mappings\":");
        reveal_strlit(",\"minimize_behaviors\":");
        reveal_strlit(",\"minimize_delays\":");
        reveal_strlit(",\"auto_exit_after_minimize\":");
        assert(sv.skip(0) =~= sv);
    }
    if !match_lit(&s, 0, "{\"auto_minimize_items\":") {
        return AppSettings::default();
    }
    let p0: usize = 23;
    proof {
        assert("{\"auto_minimize_items\":"@.len() == 23);
        assert(sv.skip(0).len() >= 23);
    }
    let (items, p1) = match p_str_array(&s, p0) {
        Some(t) => t,
        None => {
            return AppSettings::default();
        },
    };
    if !match_lit(&s, p1, ",\"process_name_mappings\":") {
        return AppSettings::default();
    }
    proof {
        assert(",\"process_name_mappings\":"@.len() == 25);
        assert(sv.skip(p1 as int).len() >= 25);
        assert(sv.skip(p1 as int).len() == sv.len() - p1);
    }
    let p2 = p1 + 25;
    let (mappings, p3) = match p_str_map(&s, p2) {
        Some(t) => t,
        None => {
            return AppSettings::default();
        },
    };
    if !match_lit(&s, p3, ",\"minimize_behaviors\":") {
        return AppSettings::default();
    }
    proof {
        assert(",\"minimize_behaviors\":"@.len() == 22);
        assert(sv.skip(p3 as int).len() >= 22);
        assert(sv.skip(p3 as int).len() == sv.len() - p3);
    }
    let p4 = p3 + 22;
    let (behaviors, p5) = match p_str_map(&s, p4) {
        Some(t) => t,
        None => {
            return AppSettings::default();
        },
    };
    if !match_lit(&s, p5, ",\"minimize_delays\":") {
        return AppSettings::default();
    }
    proof {
        assert(",\"minimize_delays\":"@.len() == 19);
        assert(sv.skip(p5 as int).len() >= 19);
        assert(sv.skip(p5 as int).len() == sv.len() - p5);
    }
    let p6 = p5 + 19;
    let (delays, p7) = match p_u32_map(&s, p6) {
        Some(t) => t,
        None => {
            return AppSettings::default();
        },
    };
    if !match_lit(&s, p7, ",\"auto_exit_after_minimize\":") {
        return AppSettings::default();
    }
    proof {
        assert(",\"auto_exit_after_minimize\":"@.len() == 28);
        assert(sv.skip(p7 as int).len() >= 28);
        assert(sv.skip(p7 as int).len() == sv.len() - p7);
    }
    let p8 = p7 + 28;
    let (auto_exit, p9) = match p_bool(&s, p8) {
        Some(t) => t,
        None => {
            return AppSettings::default();
        },
    };
    proof {
        if p9 < sv.len() {
            assert(sv.skip(p9 as int)[0] == sv[p9 as int]);
        }
    }
    if !(s.len() - p9 == 1 && s[p9] == '}') {
        return AppSettings::default();
    }
    proof {
        assert(p9 + 1 == sv.len());
    }
    if !strings_distinct(&items) {
        return AppSettings::default();
    }
    if !keys_distinct(&mappings) {
        return AppSettings::default();
    }
    if !keys_distinct(&behaviors) {
        return AppSettings::default();
    }
    if !keys_distinct(&delays) {
        return AppSettings::default();
    }
    let r = AppSettings {
        auto_minimize_items: items,
        process_name_mappings: mappings,
        minimize_behaviors: behaviors,
        minimize_delays: delays,
        auto_exit_after_minimize: auto_exit,
    };
    proof {
        assert(decode_spec(text@) == Some(r@));
    }
    r
}

// ---------- parsing inverts rendering ----------
/// A rendered string body parses back to itself.
proof fn lemma_rt_string(x: Seq<char>, rest: Seq<char>)
    ensures
        sp_string(esc_str(x) + seq!['"'] + rest) == Some((x, (esc_str(x).len() + 1) as int)),
    decreases x.len(),
{
    let s = esc_str(x) + seq!['"'] + rest;
    if x.len() == 0 {
        assert(esc_str(x) =~= Seq::<char>::empty());
        assert(s[0] == '"');
        assert(x =~= Seq::<char>::empty());
    } else {
        let c = x[0];
        let tail = x.drop_first();
        lemma_rt_string(tail, rest);
        assert(esc_str(x) == esc_char(c) + esc_str(tail));
        let s2 = esc_str(tail) + seq!['"'] + rest;
        assert(s =~= esc_char(c) + s2);
        if c == '"' {
            assert(s[0] == '\\' && s[1] == '"');
            assert(s.len() >= 2);
            assert(s.skip(2) =~= s2);
            assert(seq![s[1]] + tail =~= x);
        } else if c == '\\' {
            assert(s[0] == '\\' && s[1] == '\\');
            assert(s.skip(2) =~= s2);
            assert(seq![s[1]] + tail =~= x);
        } else if (c as u32) < 32 {
            let v = (c as u32) as int;
            assert(s[0] == '\\' && s[1] == 'u' && s[2] == '0' && s[3] == '0');
            assert(s[4] == hex_digit(v / 16));
            assert(s[5] == hex_digit(v % 16));
            assert(s.len() >= 6);
            assert(s[1] != '"' && s[1] != '\\');
            assert(0 <= v < 32);
            assert(0 <= v / 16 < 16 && 0 <= v % 16 < 16) by (nonlinear_arith)
                requires
                    0 <= v < 32,
            ;
            assert(hex_val(hex_digit(v / 16)) == v / 16);
            assert(hex_val(hex_digit(v % 16)) == v % 16);
            assert(is_hex(s[4]) && is_hex(s[5]));
            assert(s.skip(6) =~= s2);
            assert(16 * (v / 16) + v % 16 == v) by {
                vstd::arithmetic::div_mod::lemma_fundamental_div_mod(v, 16);
            }
            assert(16 * hex_val(s[4]) + hex_val(s[5]) == v);
            vstd::utf8::char_u32_cast(c, c as u32);
            assert((16 * hex_val(s[4]) + hex_val(s[5])) == (c as u32) as int);
            assert(((16 * hex_val(s[4]) + hex_val(s[5])) as char) == c);
            assert(seq![c] + tail =~= x);
        } else {
            assert(s[0] == c);
            assert(c != '"' && c != '\\');
            assert(s.skip(1) =~= s2);
            assert(seq![c] + tail =~= x);
        }
    }
}

/// Every rendered digit is a digit, and the run ends where the digits do.
proof fn lemma_dec_digits_are_digits(n: nat)
    ensures
        forall|w: int| 0 <= w < dec_digits(n).len() ==> is_digit(#[trigger] dec_digits(n)[w]),
        dec_digits(n).len() >= 1,
    decreases n,
{
    if n < 10 {
        assert(dec_digits(n)[0] == hex_digit(n as int));
    } else {
        lemma_dec_digits_are_digits(n / 10);
        assert(forall|w: int|
            0 <= w < dec_digits(n / 10).len() ==> #[trigger] dec_digits(n)[w] == dec_digits(
                n / 10,
            )[w]);
        assert(dec_digits(n)[dec_digits(n).len() - 1] == hex_digit((n % 10) as int));
    }
}

/// The rendered digits denote the number.
proof fn lemma_rt_digits_value(n: nat)
    ensures
        nat_of_digits(dec_digits(n)) == n,
    decreases n,
{
    if n < 10 {
        assert(dec_digits(n).drop_last() =~= Seq::<char>::empty());
        assert(nat_of_digits(Seq::<char>::empty()) == 0);
        assert(dec_digits(n).last() == hex_digit(n as int));
        assert(hex_val(hex_digit(n as int)) == n);
        assert(nat_of_digits(dec_digits(n)) == nat_of_digits(Seq::<char>::empty()) * 10 + (hex_val(
            dec_digits(n).last(),
        ) as nat));
    } else {
        lemma_rt_digits_value(n / 10);
        assert(dec_digits(n).drop_last() =~= dec_digits(n / 10));
        assert(dec_digits(n).last() == hex_digit((n % 10) as int));
        assert(hex_val(hex_digit((n % 10) as int)) == n % 10);
        assert(n == (n / 10) * 10 + n % 10) by {
            vstd::arithmetic::div_mod::lemma_fundamental_div_mod(n as int, 10);
        }
    }
}

/// A rendered number parses back to itself when what follows is not a
/// digit.
proof fn lemma_rt_u32(v: u32, rest: Seq<char>)
    requires
        rest.len() > 0 ==> !is_digit(rest[0]),
    ensures
        sp_u32(dec_digits(v as nat) + rest) == Some((v, dec_digits(v as nat).len() as int)),
{
    let d = dec_digits(v as nat);
    let s = d + rest;
    lemma_dec_digits_are_digits(v as nat);
    assert(forall|w: int| 0 <= w < d.len() ==> #[trigger] s[w] == d[w]);
    if rest.len() > 0 {
        assert(s[d.len() as int] == rest[0]);
    }
    lemma_digits_len_at(s, d.len() as int);
    assert(s.take(d.len() as int) =~= d);
    lemma_rt_digits_value(v as nat);
}

/// Rendered booleans parse back.
proof fn lemma_rt_bool(b: bool, rest: Seq<char>)
    ensures
        sp_bool(enc_bool(b) + rest) == Some((b, if b {
            4int
        } else {
            5int
        })),
{
    reveal_strlit("true");
    reveal_strlit("false");
    let s = enc_bool(b) + rest;
    if b {
        assert("true"@ =~= s.subrange(0, 4));
        assert("true"@.is_prefix_of(s));
    } else {
        assert("false"@ =~= s.subrange(0, 5));
        assert("false"@.is_prefix_of(s));
        assert(s[0] == 'f');
        assert(!"true"@.is_prefix_of(s)) by {
            if "true"@.is_prefix_of(s) {
                assert(s.subrange(0, 4)[0] == 't');
            }
        }
    }
}

/// Rendered array elements parse back to themselves.
proof fn lemma_rt_str_items(items: Seq<Seq<char>>, rest: Seq<char>)
    requires
        items.len() >= 1,
    ensures
        sp_str_items(enc_str_items(items) + seq![']'] + rest) == Some(
            (items, (enc_str_items(items).len() + 1) as int),
        ),
    decreases items.len(),
{
    let s = enc_str_items(items) + seq![']'] + rest;
    let x = items[0];
    if items.len() == 1 {
        assert(enc_str_items(items) == enc_string(x));
        assert(s =~= seq!['"'] + (esc_str(x) + seq!['"'] + (seq![']'] + rest)));
        assert(s[0] == '"');
        assert(s.skip(1) =~= esc_str(x) + seq!['"'] + (seq![']'] + rest));
        lemma_rt_string(x, seq![']'] + rest);
        let c = (esc_str(x).len() + 1) as int;
        let j = 1 + c;
        assert(s[j] == ']');
        assert(j < s.len());
        assert(seq![x] =~= items);
    } else {
        let tail = items.drop_first();
        lemma_rt_str_items(tail, rest);
        assert(enc_str_items(items) == enc_string(x) + seq![','] + enc_str_items(tail));
        let after = enc_str_items(tail) + seq![']'] + rest;
        assert(s =~= seq!['"'] + (esc_str(x) + seq!['"'] + (seq![','] + after)));
        assert(s[0] == '"');
        assert(s.skip(1) =~= esc_str(x) + seq!['"'] + (seq![','] + after));
        lemma_rt_string(x, seq![','] + after);
        let c = (esc_str(x).len() + 1) as int;
        let j = 1 + c;
        assert(s[j] == ',');
        assert(j + 1 < s.len());
        assert(s[j] != ']');
        assert(s.skip(j + 1) =~= after);
        assert(seq![x] + tail =~= items);
    }
}

/// A rendered string array parses back to itself.
proof fn lemma_rt_str_array(items: Seq<Seq<char>>, rest: Seq<char>)
    ensures
        sp_str_array(enc_str_array(items) + rest) == Some(
            (items, (enc_str_array(items).len()) as int),
        ),
{
    let s = enc_str_array(items) + rest;
    if items.len() == 0 {
        assert(enc_str_items(items) =~= Seq::<char>::empty());
        assert(s[0] == '[' && s[1] == ']');
        assert(s.len() >= 2);
        assert(enc_str_array(items).len() == 2);
        assert(Seq::<Seq<char>>::empty() =~= items);
    } else {
        assert(s =~= seq!['['] + (enc_str_items(items) + seq![']'] + rest));
        assert(s[0] == '[');
        assert(enc_str_items(items).len() > 0) by {
            if items.len() == 1 {
                assert(enc_str_items(items) == enc_string(items[0]));
            }
        }
        assert(s[1] == (enc_str_items(items) + seq![']'] + rest)[0]);
        assert((enc_str_items(items) + seq![']'] + rest)[0] == enc_str_items(items)[0]);
        assert(enc_str_items(items)[0] == '"') by {
            if items.len() == 1 {
                assert(enc_str_items(items) == enc_string(items[0]));
            } else {
                assert(enc_str_items(items)[0] == enc_string(items[0])[0]);
            }
        }
        assert(s.len() >= 2 && s[1] != ']');
        assert(s.skip(1) =~= enc_str_items(items) + seq![']'] + rest);
        lemma_rt_str_items(items, rest);
    }
}

/// One rendered `"key":"value"` pair followed by a separator parses as
/// expected.
#[verifier::rlimit(100)]
proof fn lemma_rt_kv(k: Seq<char>, v: Seq<char>, tail: Seq<char>)
    ensures
        ({
            let s = enc_string(k) + seq![':'] + enc_string(v) + tail;
            let j = 1 + (esc_str(k).len() + 1) as int;
            let w = j + 2 + (esc_str(v).len() + 1) as int;
            &&& s.len() == enc_string(k).len() + 1 + enc_string(v).len() + tail.len()
            &&& s[0] == '"'
            &&& sp_string(s.skip(1)) == Some((k, (esc_str(k).len() + 1) as int))
            &&& s[j] == ':'
            &&& j + 1 < s.len() ==> s[j + 1] == enc_string(v)[0]
            &&& s[j + 1] == '"'
            &&& sp_string(s.skip(j + 2)) == Some((v, (esc_str(v).len() + 1) as int))
            &&& w == enc_string(k).len() + 1 + enc_string(v).len()
            &&& (tail.len() > 0 ==> w < s.len() && s[w] == tail[0])
        }),
{
    let s = enc_string(k) + seq![':'] + enc_string(v) + tail;
    assert(s =~= seq!['"'] + (esc_str(k) + seq!['"'] + (seq![':'] + enc_string(v) + tail)));
    assert(s[0] == '"');
    assert(s.skip(1) =~= esc_str(k) + seq!['"'] + (seq![':'] + enc_string(v) + tail));
    lemma_rt_string(k, seq![':'] + enc_string(v) + tail);
    let j = 1 + (esc_str(k).len() + 1) as int;
    assert(s[j] == ':');
    assert(s[j + 1] == '"');
    assert(s.skip(j + 2) =~= esc_str(v) + seq!['"'] + tail);
    lemma_rt_string(v, tail);
    let w = j + 2 + (esc_str(v).len() + 1) as int;
    if tail.len() > 0 {
        assert(s[w] == tail[0]);
    }
}

/// Rendered string-map entries parse back to themselves.
#[verifier::rlimit(100)]
proof fn lemma_rt_str_entries(m: Seq<(Seq<char>, Seq<char>)>, rest: Seq<char>)
    requires
        m.len() >= 1,
    ensures
        sp_str_entries(enc_str_entries(m) + seq!['}'] + rest) == Some(
            (m, (enc_str_entries(m).len() + 1) as int),
        ),
    decreases m.len(),
{
    let s = enc_str_entries(m) + seq!['}'] + rest;
    let k = m[0].0;
    let v = m[0].1;
    let kv = enc_string(k) + seq![':'] + enc_string(v);
    let j = 1 + (esc_str(k).len() + 1) as int;
    let w = j + 2 + (esc_str(v).len() + 1) as int;
    if m.len() == 1 {
        assert(enc_str_entries(m) == kv);
        assert(s =~= enc_string(k) + seq![':'] + enc_string(v) + (seq!['}'] + rest));
        lemma_rt_kv(k, v, seq!['}'] + rest);
        assert(s[w] == '}');
        assert(w < s.len());
        assert(seq![(k, v)] =~= m);
    } else {
        let tail = m.drop_first();
        lemma_rt_str_entries(tail, rest);
        assert(enc_str_entries(m) == kv + seq![','] + enc_str_entries(tail));
        let after = enc_str_entries(tail) + seq!['}'] + rest;
        assert(s =~= enc_string(k) + seq![':'] + enc_string(v) + (seq![','] + after));
        lemma_rt_kv(k, v, seq![','] + after);
        assert(s[w] == ',');
        assert(s[w] != '}');
        assert(w + 1 < s.len());
        assert(s.skip(w + 1) =~= after) by {
            assert(s =~= enc_string(k) + seq![':'] + enc_string(v) + (seq![','] + after));
        }
        assert(seq![(k, v)] + tail =~= m);
    }
}

/// A rendered string map parses back to itself.
proof fn lemma_rt_str_map(m: Seq<(Seq<char>, Seq<char>)>, rest: Seq<char>)
    ensures
        sp_str_map(enc_str_map(m) + rest) == Some((m, (enc_str_map(m).len()) as int)),
{
    let s = enc_str_map(m) + rest;
    if m.len() == 0 {
        assert(enc_str_entries(m) =~= Seq::<char>::empty());
        assert(s[0] == '{' && s[1] == '}');
        assert(s.len() >= 2);
        assert(enc_str_map(m).len() == 2);
        assert(Seq::<(Seq<char>, Seq<char>)>::empty() =~= m);
    } else {
        assert(s =~= seq!['{'] + (enc_str_entries(m) + seq!['}'] + rest));
        assert(s[0] == '{');
        assert(enc_str_entries(m).len() > 0 && enc_str_entries(m)[0] == '"') by {
            if m.len() == 1 {
                assert(enc_str_entries(m) == enc_string(m[0].0) + seq![':'] + enc_string(m[0].1));
            } else {
                assert(enc_str_entries(m)[0] == (enc_string(m[0].0) + seq![':'] + enc_string(
                    m[0].1,
                ))[0]);
            }
        }
        assert(s[1] == enc_str_entries(m)[0]);
        assert(s.len() >= 2 && s[1] != '}');
        assert(s.skip(1) =~= enc_str_entries(m) + seq!['}'] + rest);
        lemma_rt_str_entries(m, rest);
    }
}

/// One rendered `"key":number` pair followed by a separator parses as
/// expected.
#[verifier::rlimit(100)]
proof fn lemma_rt_kd(k: Seq<char>, v: u32, tail: Seq<char>)
    requires
        tail.len() > 0,
        !is_digit(tail[0]),
    ensures
        ({
            let d = dec_digits(v as nat);
            let s = enc_string(k) + seq![':'] + d + tail;
            let j = 1 + (esc_str(k).len() + 1) as int;
            let w = j + 1 + d.len();
            &&& s.len() == enc_string(k).len() + 1 + d.len() + tail.len()
            &&& s[0] == '"'
            &&& sp_string(s.skip(1)) == Some((k, (esc_str(k).len() + 1) as int))
            &&& s[j] == ':'
            &&& sp_u32(s.skip(j + 1)) == Some((v, d.len() as int))
            &&& w == enc_string(k).len() + 1 + d.len()
            &&& w < s.len() && s[w] == tail[0]
        }),
{
    let d = dec_digits(v as nat);
    let s = enc_string(k) + seq![':'] + d + tail;
    assert(s =~= seq!['"'] + (esc_str(k) + seq!['"'] + (seq![':'] + d + tail)));
    assert(s[0] == '"');
    assert(s.skip(1) =~= esc_str(k) + seq!['"'] + (seq![':'] + d + tail));
    lemma_rt_string(k, seq![':'] + d + tail);
    let j = 1 + (esc_str(k).len() + 1) as int;
    assert(s[j] == ':');
    assert(s.skip(j + 1) =~= d + tail);
    lemma_rt_u32(v, tail);
    let w = j + 1 + d.len();
    assert(s[w] == tail[0]);
}

/// Rendered numeric-map entries parse back to themselves.
#[verifier::rlimit(100)]
proof fn lemma_rt_u32_entries(m: Seq<(Seq<char>, u32)>, rest: Seq<char>)
    requires
        m.len() >= 1,
    ensures
        sp_u32_entries(enc_u32_entries(m) + seq!['}'] + rest) == Some(
            (m, (enc_u32_entries(m).len() + 1) as int),
        ),
    decreases m.len(),
{
    let s = enc_u32_entries(m) + seq!['}'] + rest;
    let k = m[0].0;
    let v = m[0].1;
    let d = dec_digits(v as nat);
    let kv = enc_string(k) + seq![':'] + d;
    let j = 1 + (esc_str(k).len() + 1) as int;
    let w = j + 1 + d.len();
    if m.len() == 1 {
        assert(enc_u32_entries(m) == kv);
        assert(s =~= enc_string(k) + seq![':'] + d + (seq!['}'] + rest));
        lemma_rt_kd(k, v, seq!['}'] + rest);
        assert(s[w] == '}');
        assert(w < s.len());
        assert(seq![(k, v)] =~= m);
    } else {
        let tail = m.drop_first();
        lemma_rt_u32_entries(tail, rest);
        assert(enc_u32_entries(m) == kv + seq![','] + enc_u32_entries(tail));
        let after = enc_u32_entries(tail) + seq!['}'] + rest;
        assert(s =~= enc_string(k) + seq![':'] + d + (seq![','] + after));
        assert(enc_u32_entries(tail)[0] == '"') by {
            if tail.len() == 1 {
                assert(enc_u32_entries(tail) == enc_string(tail[0].0) + seq![':'] + dec_digits(
                    tail[0].1 as nat,
                ));
            } else {
                assert(enc_u32_entries(tail)[0] == (enc_string(tail[0].0) + seq![':'] + dec_digits(
                    tail[0].1 as nat,
                ))[0]);
            }
        }
        lemma_rt_kd(k, v, seq![','] + after);
        assert(s[w] == ',');
        assert(s[w] != '}');
        assert(w + 1 < s.len());
        assert(s.skip(w + 1) =~= after) by {
            assert(s =~= enc_string(k) + seq![':'] + d + (seq![','] + after));
        }
        assert(seq![(k, v)] + tail =~= m);
    }
}

/// A rendered numeric map parses back to itself.
proof fn lemma_rt_u32_map(m: Seq<(Seq<char>, u32)>, rest: Seq<char>)
    ensures
        sp_u32_map(enc_u32_map(m) + rest) == Some((m, (enc_u32_map(m).len()) as int)),
{
    let s = enc_u32_map(m) + rest;
    if m.len() == 0 {
        assert(enc_u32_entries(m) =~= Seq::<char>::empty());
        assert(s[0] == '{' && s[1] == '}');
        assert(s.len() >= 2);
        assert(enc_u32_map(m).len() == 2);
        assert(Seq::<(Seq<char>, u32)>::empty() =~= m);
    } else {
        assert(s =~= seq!['{'] + (enc_u32_entries(m) + seq!['}'] + rest));
        assert(s[0] == '{');
        assert(enc_u32_entries(m).len() > 0 && enc_u32_entries(m)[0] == '"') by {
            if m.len() == 1 {
                assert(enc_u32_entries(m) == enc_string(m[0].0) + seq![':'] + dec_digits(
                    m[0].1 as nat,
                ));
            } else {
                assert(enc_u32_entries(m)[0] == (enc_string(m[0].0) + seq![':'] + dec_digits(
                    m[0].1 as nat,
                ))[0]);
            }
        }
        assert(s[1] == enc_u32_entries(m)[0]);
        assert(s.len() >= 2 && s[1] != '}');
        assert(s.skip(1) =~= enc_u32_entries(m) + seq!['}'] + rest);
        lemma_rt_u32_entries(m, rest);
    }
}

/// The tail of the rendering, from the behaviors field on, parses field
/// by field.
#[verifier::rlimit(100)]
proof fn lemma_rt_settings_tail(m: SettingsModel)
    ensures
        ({
            let l2 = ",\"minimize_behaviors\":"@;
            let l3 = ",\"minimize_delays\":"@;
            let l4 = ",\"auto_exit_after_minimize\":"@;
            let eb = enc_str_map(m.minimize_behaviors);
            let ed = enc_u32_map(m.minimize_delays);
            let ex = enc_bool(m.auto_exit_after_minimize);
            let u = l2 + (eb + (l3 + (ed + (l4 + (ex + seq!['}'])))));
            let q0 = l2.len() as int;
            let q1 = q0 + eb.len();
            let q2 = q1 + l3.len();
            let q3 = q2 + ed.len();
            let q4 = q3 + l4.len();
            let q5 = q4 + ex.len();
            &&& l2.is_prefix_of(u)
            &&& sp_str_map(u.skip(q0)) == Some((m.minimize_behaviors, eb.len() as int))
            &&& l3.is_prefix_of(u.skip(q1))
            &&& sp_u32_map(u.skip(q2)) == Some((m.minimize_delays, ed.len() as int))
            &&& l4.is_prefix_of(u.skip(q3))
            &&& sp_bool(u.skip(q4)) == Some(
                (m.auto_exit_after_minimize, ex.len() as int),
            )
            &&& u[q5] == '}'
            &&& q5 + 1 == u.len()
        }),
{
    reveal_strlit(",\"minimize_behaviors\":");
    reveal_strlit(",\"minimize_delays\":");
    reveal_strlit(",\"auto_exit_after_minimize\":");
    reveal_strlit("true");
    reveal_strlit("false");
    let l2 = ",\"minimize_behaviors\":"@;
    let l3 = ",\"minimize_delays\":"@;
    let l4 = ",\"auto_exit_after_minimize\":"@;
    let eb = enc_str_map(m.minimize_behaviors);
    let ed = enc_u32_map(m.minimize_delays);
    let ex = enc_bool(m.auto_exit_after_minimize);
    let u = l2 + (eb + (l3 + (ed + (l4 + (ex + seq!['}'])))));
    let q0 = l2.len() as int;
    let q1 = q0 + eb.len();
    let q2 = q1 + l3.len();
    let q3 = q2 + ed.len();
    let q4 = q3 + l4.len();
    let q5 = q4 + ex.len();
    assert(l2 =~= u.subrange(0, q0));
    assert(l2.is_prefix_of(u));
    assert(u.skip(q0) =~= eb + (l3 + (ed + (l4 + (ex + seq!['}'])))));
    lemma_rt_str_map(m.minimize_behaviors, l3 + (ed + (l4 + (ex + seq!['}']))));
    assert(u.skip(q1) =~= l3 + (ed + (l4 + (ex + seq!['}']))));
    assert(l3 =~= u.skip(q1).subrange(0, l3.len() as int));
    assert(l3.is_prefix_of(u.skip(q1)));
    assert(u.skip(q2) =~= ed + (l4 + (ex + seq!['}'])));
    lemma_rt_u32_map(m.minimize_delays, l4 + (ex + seq!['}']));
    assert(u.skip(q3) =~= l4 + (ex + seq!['}']));
    assert(l4 =~= u.skip(q3).subrange(0, l4.len() as int));
    assert(l4.is_prefix_of(u.skip(q3)));
    assert(u.skip(q4) =~= ex + seq!['}']);
    lemma_rt_bool(m.auto_exit_after_minimize, seq!['}']);
    assert(ex.len() == (if m.auto_exit_after_minimize {
        4int
    } else {
        5int
    }));
    assert(u.skip(q4)[ex.len() as int] == '}');
    assert(u[q5] == '}');
}

/// Folds component parses into the whole-object parse.
#[verifier::rlimit(100)]
proof fn lemma_sp_settings_unfold(
    s: Seq<char>,
    m: SettingsModel,
    na: int,
    nm: int,
    nb: int,
    nd: int,
    nx: int,
)
    requires
        na >= 1 && nm >= 1 && nb >= 1 && nd >= 1 && nx >= 1,
        "{\"auto_minimize_items\":"@.is_prefix_of(s),
        sp_str_array(s.skip("{\"auto_minimize_items\":"@.len() as int)) == Some(
            (m.auto_minimize_items, na),
        ),
        ",\"process_name_mappings\":"@.is_prefix_of(
            s.skip("{\"auto_minimize_items\":"@.len() + na),
        ),
        sp_str_map(
            s.skip(
                "{\"auto_minimize_items\":"@.len() + na + ",\"process_name_mappings\":"@.len(),
            ),
        ) == Some((m.process_name_mappings, nm)),
        ",\"minimize_behaviors\":"@.is_prefix_of(
            s.skip(
                "{\"auto_minimize_items\":"@.len() + na + ",\"process_name_mappings\":"@.len()
                    + nm,
            ),
        ),
        sp_str_map(
            s.skip(
                "{\"auto_minimize_items\":"@.len() + na + ",\"process_name_mappings\":"@.len()
                    + nm + ",\"minimize_behaviors\":"@.len(),
            ),
        ) == Some((m.minimize_behaviors, nb)),
        ",\"minimize_delays\":"@.is_prefix_of(
            s.skip(
                "{\"auto_minimize_items\":"@.len() + na + ",\"process_name_mappings\":"@.len()
                    + nm + ",\"minimize_behaviors\":"@.len() + nb,
            ),
        ),
        sp_u32_map(
            s.skip(
                "{\"auto_minimize_items\":"@.len() + na + ",\"process_name_mappings\":"@.len()
                    + nm + ",\"minimize_behaviors\":"@.len() + nb
                    + ",\"minimize_delays\":"@.len(),
            ),
        ) == Some((m.minimize_delays, nd)),
        ",\"auto_exit_after_minimize\":"@.is_prefix_of(
            s.skip(
                "{\"auto_minimize_items\":"@.len() + na + ",\"process_name_mappings\":"@.len()
                    + nm + ",\"minimize_behaviors\":"@.len() + nb
                    + ",\"minimize_delays\":"@.len() + nd,
            ),
        ),
        sp_bool(
            s.skip(
                "{\"auto_minimize_items\":"@.len() + na + ",\"process_name_mappings\":"@.len()
                    + nm + ",\"minimize_behaviors\":"@.len() + nb
                    + ",\"minimize_delays\":"@.len() + nd
                    + ",\"auto_exit_after_minimize\":"@.len(),
            ),
        ) == Some((m.auto_exit_after_minimize, nx)),
        ({
            let p9 = "{\"auto_minimize_items\":"@.len() + na
                + ",\"process_name_mappings\":"@.len() + nm + ",\"minimize_behaviors\":"@.len()
                + nb + ",\"minimize_delays\":"@.len() + nd
                + ",\"auto_exit_after_minimize\":"@.len() + nx;
            0 <= p9 < s.len() && s[p9] == '}' && p9 + 1 == s.len()
        }),
    ensures
        sp_settings(s) == Some(m),
{
}

/// Peeling a known prefix off a concatenation.
proof fn lemma_peel(a: Seq<char>, b: Seq<char>)
    ensures
        a.is_prefix_of(a + b),
        (a + b).skip(a.len() as int) == b,
{
    assert(a =~= (a + b).subrange(0, a.len() as int));
    assert((a + b).skip(a.len() as int) =~= b);
}

/// The head of the rendering: the opt-in array and the name-mapping
/// fields parse, and what follows them is the rendered tail.
#[verifier::rlimit(100)]
proof fn lemma_rt_settings_head(m: SettingsModel)
    ensures
        ({
            let s = enc_settings(m);
            let l0 = "{\"auto_minimize_items\":"@;
            let l1 = ",\"process_name_mappings\":"@;
            let ea = enc_str_array(m.auto_minimize_items);
            let em = enc_str_map(m.process_name_mappings);
            let u = ",\"minimize_behaviors\":"@ + (enc_str_map(m.minimize_behaviors) + (
            ",\"minimize_delays\":"@ + (enc_u32_map(m.minimize_delays) + (
            ",\"auto_exit_after_minimize\":"@ + (enc_bool(m.auto_exit_after_minimize)
                + seq!['}'])))));
            let p0 = l0.len() as int;
            let p1 = p0 + ea.len();
            let p2 = p1 + l1.len();
            let p3 = p2 + em.len();
            &&& l0.is_prefix_of(s)
            &&& sp_str_array(s.skip(p0)) == Some((m.auto_minimize_items, ea.len() as int))
            &&& l1.is_prefix_of(s.skip(p1))
            &&& sp_str_map(s.skip(p2)) == Some((m.process_name_mappings, em.len() as int))
            &&& s.skip(p3) == u
            &&& s.len() == p3 + u.len()
        }),
{
    reveal_strlit("{\"auto_minimize_items\":");
    reveal_strlit(",\"process_name_mappings\":");
    let s = enc_settings(m);
    let l0 = "{\"auto_minimize_items\":"@;
    let l1 = ",\"process_name_mappings\":"@;
    let ea = enc_str_array(m.auto_minimize_items);
    let em = enc_str_map(m.process_name_mappings);
    let u = ",\"minimize_behaviors\":"@ + (enc_str_map(m.minimize_behaviors) + (
    ",\"minimize_delays\":"@ + (enc_u32_map(m.minimize_delays) + (
    ",\"auto_exit_after_minimize\":"@ + (enc_bool(m.auto_exit_after_minimize) + seq!['}'])))));
    let tc = em + u;
    let tb = l1 + tc;
    let ta = ea + tb;
    assert(s =~= l0 + ta) by {
        reveal_strlit("\"auto_minimize_items\":");
        reveal_strlit("{\"auto_minimize_items\":");
        reveal_strlit(",\"process_name_mappings\":");
    }
    let p0 = l0.len() as int;
    let p1 = p0 + ea.len();
    let p2 = p1 + l1.len();
    let p3 = p2 + em.len();
    lemma_peel(l0, ta);
    assert(s.skip(p0) == ta);
    lemma_rt_str_array(m.auto_minimize_items, tb);
    lemma_peel(ea, tb);
    assert(s.skip(p1) =~= s.skip(p0).skip(ea.len() as int));
    assert(s.skip(p1) == tb);
    lemma_peel(l1, tc);
    assert(s.skip(p2) =~= s.skip(p1).skip(l1.len() as int));
    assert(s.skip(p2) == tc);
    lemma_rt_str_map(m.process_name_mappings, u);
    lemma_peel(em, u);
    assert(s.skip(p3) =~= s.skip(p2).skip(em.len() as int));
    assert(s.skip(p3) == u);
}

/// Saving and loading are inverse: the canonical rendering of any
/// well-formed policy decodes to exactly that policy.
#[verifier::rlimit(100)]
pub proof fn lemma_settings_round_trip(m: SettingsModel)
    requires
        model_wf(m),
    ensures
        decode_spec(enc_settings(m)) == Some(m),
{
    let s = enc_settings(m);
    let l0 = "{\"auto_minimize_items\":"@;
    let l1 = ",\"process_name_mappings\":"@;
    let l2 = ",\"minimize_behaviors\":"@;
    let l3 = ",\"minimize_delays\":"@;
    let l4 = ",\"auto_exit_after_minimize\":"@;
    let ea = enc_str_array(m.auto_minimize_items);
    let em = enc_str_map(m.process_name_mappings);
    let eb = enc_str_map(m.minimize_behaviors);
    let ed = enc_u32_map(m.minimize_delays);
    let ex = enc_bool(m.auto_exit_after_minimize);
    let u = l2 + (eb + (l3 + (ed + (l4 + (ex + seq!['}'])))));
    let p0 = l0.len() as int;
    let p1 = p0 + ea.len();
    let p2 = p1 + l1.len();
    let p3 = p2 + em.len();
    lemma_rt_settings_head(m);
    lemma_rt_settings_tail(m);
    let q0 = l2.len() as int;
    let q1 = q0 + eb.len();
    let q2 = q1 + l3.len();
    let q3 = q2 + ed.len();
    let q4 = q3 + l4.len();
    let q5 = q4 + ex.len();
    let p4 = p3 + l2.len();
    let p5 = p4 + eb.len();
    let p6 = p5 + l3.len();
    let p7 = p6 + ed.len();
    let p8 = p7 + l4.len();
    let p9 = p8 + ex.len();
    assert(s.skip(p4) =~= u.skip(q0));
    assert(s.skip(p5) =~= u.skip(q1));
    assert(s.skip(p6) =~= u.skip(q2));
    assert(s.skip(p7) =~= u.skip(q3));
    assert(s.skip(p8) =~= u.skip(q4));
    assert(s[p9] == u[q5]);
    assert(s[p9] == '}');
    assert(p9 + 1 == s.len());
    lemma_sp_settings_unfold(
        s,
        m,
        ea.len() as int,
        em.len() as int,
        eb.len() as int,
        ed.len() as int,
        ex.len() as int,
    );
}

} // verus!
