//! Code-generation synthesizer: renders the asset registry into the fixed
//! source stub the generated project is built from, one load statement per
//! asset, Scripts last in ascending load order.

use vstd::prelude::*;

use crate::EditorError;
use crate::assets::{Asset, AssetType, Config, LoadType, script_orders_distinct};

verus! {

/// The decimal digit character for `d`.
pub open spec fn digit_char(d: nat) -> char {
    if d == 0 {
        '0'
    } else if d == 1 {
        '1'
    } else if d == 2 {
        '2'
    } else if d == 3 {
        '3'
    } else if d == 4 {
        '4'
    } else if d == 5 {
        '5'
    } else if d == 6 {
        '6'
    } else if d == 7 {
        '7'
    } else if d == 8 {
        '8'
    } else {
        '9'
    }
}

/// The decimal digits of `n`, most significant first.
pub open spec fn dec_digits(n: nat) -> Seq<char>
    decreases n,
{
    if n < 10 {
        seq![digit_char(n)]
    } else {
        dec_digits(n / 10).push(digit_char(n % 10))
    }
}

fn digit_str(d: u32) -> (r: &'static str)
    requires
        d < 10,
    ensures
        r@ == seq![digit_char(d as nat)],
{
    let r: &'static str = match d {
        0 => "0",
        1 => "1",
        2 => "2",
        3 => "3",
        4 => "4",
        5 => "5",
        6 => "6",
        7 => "7",
        8 => "8",
        _ => "9",
    };
    proof {
        reveal_strlit("0");
        reveal_strlit("1");
        reveal_strlit("2");
        reveal_strlit("3");
        reveal_strlit("4");
        reveal_strlit("5");
        reveal_strlit("6");
        reveal_strlit("7");
        reveal_strlit("8");
        reveal_strlit("9");
        assert(r@ =~= seq![digit_char(d as nat)]);
    }
    r
}

/// Renders `n` in decimal.
pub fn u64_dec(n: u64) -> (r: String)
    ensures
        r@ == dec_digits(n as nat),
    decreases n,
{
    if n < 10 {
        digit_str(n as u32).to_owned()
    } else {
        let mut s = u64_dec(n / 10);
        s.append(digit_str((n % 10) as u32));
        s
    }
}

/// Renders `n` in decimal.
pub fn u32_dec(n: u32) -> (r: String)
    ensures
        r@ == dec_digits(n as nat),
{
    u64_dec(n as u64)
}

/// The load statement one asset renders to. Scripts and Fonts can only be
/// embedded; the two external combinations render no statement (rendering
/// aborts on them instead).
pub open spec fn stmt_for(a: Asset) -> Seq<char> {
    match (a.type_of, a.load_type) {
        (AssetType::Script, LoadType::Emdedded) => "\t\tembed_script!(\""@ + a.path@
            + "\", scripting);\n"@,
        (AssetType::Texture, LoadType::Emdedded) => "\t\tembed_texture!(\""@ + a.path@
            + "\", state, app);\n"@,
        (AssetType::Texture, LoadType::External) => "\t\tload_texture!(\""@ + a.path@
            + "\", state, app);\n"@,
        (AssetType::Sfx, LoadType::Emdedded) => "\t\tembed_sfx!(\""@ + a.path@ + "\", state);\n"@,
        (AssetType::Sfx, LoadType::External) => "\t\tload_sfx!(\""@ + a.path@ + "\", state);\n"@,
        (AssetType::Music, LoadType::Emdedded) => "\t\tembed_music!(\""@ + a.path@
            + "\", state);\n"@,
        (AssetType::Music, LoadType::External) => "\t\tload_music!(\""@ + a.path@
            + "\", state);\n"@,
        (AssetType::Font, LoadType::Emdedded) => "\t\tembed_font!(\""@ + a.path@
            + "\", state);\n"@,
        _ => Seq::empty(),
    }
}

/// Some asset pairs a kind that must be embedded with the external strategy.
pub open spec fn has_illegal_strategy(s: Seq<Asset>) -> bool {
    exists|i: int|
        0 <= i < s.len() && ((#[trigger] s[i]).type_of is Script || s[i].type_of is Font)
            && s[i].load_type is External
}

/// Every Script carries a load order and no two Scripts share one: the
/// total order rendering requires.
pub open spec fn orders_total(s: Seq<Asset>) -> bool {
    &&& forall|i: int|
        0 <= i < s.len() && (#[trigger] s[i]).type_of is Script ==> s[i].load_order is Some
    &&& script_orders_distinct(s)
}

/// The statements of all non-Script assets, in registry order.
pub open spec fn nonscript_block(s: Seq<Asset>) -> Seq<char>
    decreases s.len(),
{
    if s.len() == 0 {
        Seq::empty()
    } else {
        nonscript_block(s.drop_last()) + if s.last().type_of is Script {
            Seq::empty()
        } else {
            stmt_for(s.last())
        }
    }
}

/// The Scripts of the registry, in registry order, as (load order, path).
pub open spec fn scripts_of(s: Seq<Asset>) -> Seq<(usize, String)>
    decreases s.len(),
{
    if s.len() == 0 {
        Seq::empty()
    } else {
        scripts_of(s.drop_last()) + if s.last().type_of is Script && s.last().load_order is Some {
            seq![(s.last().load_order->Some_0, s.last().path)]
        } else {
            Seq::empty()
        }
    }
}

/// Inserts a script before every entry with a larger load order.
pub open spec fn insert_sorted(x: (usize, String), t: Seq<(usize, String)>) -> Seq<(usize, String)>
    decreases t.len(),
{
    if t.len() == 0 {
        seq![x]
    } else if x.0 > t.last().0 {
        t.push(x)
    } else {
        insert_sorted(x, t.drop_last()).push(t.last())
    }
}

/// Insertion sort of the collected scripts by load order.
pub open spec fn sort_scripts(s: Seq<(usize, String)>) -> Seq<(usize, String)>
    decreases s.len(),
{
    if s.len() == 0 {
        Seq::empty()
    } else {
        insert_sorted(s.last(), sort_scripts(s.drop_last()))
    }
}

/// The embedded-script statements of the sorted scripts.
pub open spec fn script_block(t: Seq<(usize, String)>) -> Seq<char>
    decreases t.len(),
{
    if t.len() == 0 {
        Seq::empty()
    } else {
        script_block(t.drop_last()) + "\t\tembed_script!(\""@ + t.last().1@ + "\", scripting);\n"@
    }
}

/// The part of the source stub before the load statements.
pub open spec fn template_head() -> Seq<char> {
    "\n    use lilah::application::*;\n    use lilah::math::Vec2;\n    use lilah::world::*;\n\n    fn setup(app : &mut App, state : &mut WorldState, scripting : &mut Scripting) {\n\n"@
}

/// The part between the load statements and the window size.
pub open spec fn template_mid() -> Seq<char> {
    "\n    }\n\n    pub fn main() {  \n        let mut app = App::new(\"Lilah\", "@
}

/// The part after the window size.
pub open spec fn template_tail() -> Seq<char> {
    ");\n        let mut scripting = Scripting::new();\n\n        World::new()\n            .setup(Box::new(setup))\n        .run(&mut app, &mut scripting);  \n    }\n"@
}

/// The full rendered source stub for a registry and a window size: the fixed
/// template with the load statements — non-Scripts in registry order, then
/// Scripts ascending by load order — and the window dimensions substituted
/// for its two placeholders.
pub open spec fn spec_render(s: Seq<Asset>, window_size: (u32, u32)) -> Seq<char> {
    template_head() + nonscript_block(s) + script_block(sort_scripts(scripts_of(s)))
        + template_mid() + "Vec2.new("@ + dec_digits(window_size.0 as nat) + ", "@ + dec_digits(
        window_size.1 as nat,
    ) + ")"@ + template_tail()
}

/// An order value occurs among the collected scripts.
pub open spec fn order_in(t: Seq<(usize, String)>, o: usize) -> bool {
    exists|i: int| 0 <= i < t.len() && (#[trigger] t[i]).0 == o
}

/// Load orders strictly ascend.
pub open spec fn asc(t: Seq<(usize, String)>) -> bool {
    forall|i: int, j: int| 0 <= i < j < t.len() ==> (#[trigger] t[i]).0 < (#[trigger] t[j]).0
}

/// Inserting a fresh order keeps the sort ascending and adds exactly it.
proof fn lemma_insert_sorted_props(x: (usize, String), t: Seq<(usize, String)>)
    requires
        asc(t),
        !order_in(t, x.0),
    ensures
        asc(insert_sorted(x, t)),
        forall|o: usize| order_in(insert_sorted(x, t), o) <==> (order_in(t, o) || o == x.0),
    decreases t.len(),
{
    let r = insert_sorted(x, t);
    if t.len() == 0 {
        assert(r == seq![x]);
        assert forall|o: usize| order_in(r, o) implies (order_in(t, o) || o == x.0) by {
            let i = choose|i: int| 0 <= i < r.len() && (#[trigger] r[i]).0 == o;
        }
        assert(forall|o: usize| o == x.0 ==> r[0].0 == o && order_in(r, o));
    } else if x.0 > t.last().0 {
        assert(r == t.push(x));
        assert(asc(r)) by {
            assert(forall|i: int| 0 <= i < t.len() ==> (#[trigger] t[i]).0 <= t[t.len() - 1].0);
        }
        assert forall|o: usize| order_in(r, o) implies (order_in(t, o) || o == x.0) by {
            let i = choose|i: int| 0 <= i < r.len() && (#[trigger] r[i]).0 == o;
            if i < t.len() {
                assert(t[i].0 == o);
            }
        }
        assert forall|o: usize| order_in(t, o) || o == x.0 implies order_in(r, o) by {
            if order_in(t, o) {
                let i = choose|i: int| 0 <= i < t.len() && (#[trigger] t[i]).0 == o;
                assert(r[i].0 == o);
            } else {
                assert(r[t.len() as int].0 == o);
            }
        }
    } else {
        let d = t.drop_last();
        assert(forall|i: int| 0 <= i < d.len() ==> d[i] == t[i]);
        assert(asc(d));
        assert(!order_in(d, x.0)) by {
            if order_in(d, x.0) {
                let i = choose|i: int| 0 <= i < d.len() && (#[trigger] d[i]).0 == x.0;
                assert(t[i].0 == x.0);
            }
        }
        lemma_insert_sorted_props(x, d);
        let rd = insert_sorted(x, d);
        assert(r == rd.push(t.last()));
        assert(asc(r)) by {
            assert forall|i: int, j: int| 0 <= i < j < r.len() implies (#[trigger] r[i]).0 < (
            #[trigger] r[j]).0 by {
                if j == r.len() - 1 {
                    // every entry of rd has an order of d or x's, all below t.last().0
                    assert(order_in(rd, r[i].0));
                    if order_in(d, r[i].0) {
                        let m = choose|m: int| 0 <= m < d.len() && (#[trigger] d[m]).0 == r[i].0;
                        assert(t[m].0 < t[t.len() - 1].0);
                    } else {
                        assert(r[i].0 == x.0);
                        assert(x.0 < t.last().0) by {
                            if order_in(t, x.0) {
                            }
                        }
                    }
                }
            }
        }
        assert forall|o: usize| order_in(r, o) implies (order_in(t, o) || o == x.0) by {
            let i = choose|i: int| 0 <= i < r.len() && (#[trigger] r[i]).0 == o;
            if i < rd.len() {
                assert(order_in(rd, o));
                if order_in(d, o) {
                    let m = choose|m: int| 0 <= m < d.len() && (#[trigger] d[m]).0 == o;
                    assert(t[m].0 == o);
                }
            } else {
                assert(t[t.len() - 1].0 == o);
            }
        }
        assert forall|o: usize| order_in(t, o) || o == x.0 implies order_in(r, o) by {
            if o == x.0 || order_in(d, o) {
                assert(order_in(rd, o));
                let m = choose|m: int| 0 <= m < rd.len() && (#[trigger] rd[m]).0 == o;
                assert(r[m].0 == o);
            } else {
                let i = choose|i: int| 0 <= i < t.len() && (#[trigger] t[i]).0 == o;
                assert(i == t.len() - 1) by {
                    if i < t.len() - 1 {
                        assert(d[i].0 == o);
                    }
                }
                assert(r[r.len() - 1].0 == o);
            }
        }
    }
}

/// An order occurs among the collected scripts exactly when a Script asset
/// carries it.
proof fn lemma_scripts_of_orders(s: Seq<Asset>)
    ensures
        forall|o: usize|
            #[trigger] order_in(scripts_of(s), o) <==> exists|k: int|
                0 <= k < s.len() && (#[trigger] s[k]).type_of is Script && s[k].load_order == Some(
                    o,
                ),
    decreases s.len(),
{
    if s.len() > 0 {
        let d = s.drop_last();
        assert(forall|k: int| 0 <= k < d.len() ==> d[k] == s[k]);
        lemma_scripts_of_orders(d);
        let t = scripts_of(s);
        let td = scripts_of(d);
        assert forall|o: usize| #[trigger] order_in(t, o) implies exists|k: int|
            0 <= k < s.len() && (#[trigger] s[k]).type_of is Script && s[k].load_order == Some(
                o,
            ) by {
            let i = choose|i: int| 0 <= i < t.len() && (#[trigger] t[i]).0 == o;
            if i < td.len() {
                assert(order_in(td, o));
            } else {
                assert(s[s.len() - 1].type_of is Script && s[s.len() - 1].load_order == Some(o));
            }
        }
        assert forall|o: usize|
            exists|k: int|
                0 <= k < s.len() && (#[trigger] s[k]).type_of is Script && s[k].load_order == Some(
                    o,
                ) implies #[trigger] order_in(t, o) by {
            let k = choose|k: int|
                0 <= k < s.len() && (#[trigger] s[k]).type_of is Script && s[k].load_order == Some(
                    o,
                );
            if k < d.len() {
                assert(order_in(td, o));
                let i = choose|i: int| 0 <= i < td.len() && (#[trigger] td[i]).0 == o;
                assert(t[i].0 == o);
            } else {
                assert(t[t.len() - 1].0 == o);
            }
        }
    }
}

/// With distinct Script orders, the collected scripts have pairwise
/// distinct orders.
proof fn lemma_scripts_of_distinct(s: Seq<Asset>)
    requires
        script_orders_distinct(s),
    ensures
        forall|i: int, j: int|
            0 <= i < j < scripts_of(s).len() ==> (#[trigger] scripts_of(s)[i]).0 != (
            #[trigger] scripts_of(s)[j]).0,
    decreases s.len(),
{
    if s.len() > 0 {
        let d = s.drop_last();
        assert(forall|k: int| 0 <= k < d.len() ==> d[k] == s[k]);
        assert(script_orders_distinct(d));
        lemma_scripts_of_distinct(d);
        lemma_scripts_of_orders(d);
        let t = scripts_of(s);
        let td = scripts_of(d);
        assert forall|i: int, j: int| 0 <= i < j < t.len() implies (#[trigger] t[i]).0 != (
        #[trigger] t[j]).0 by {
            if j >= td.len() {
                // the last element is the appended script; its order differs
                // from every script of the prefix
                assert(s[s.len() - 1].type_of is Script && s[s.len() - 1].load_order == Some(
                    t[j].0,
                ));
                if t[i].0 == t[j].0 {
                    assert(order_in(td, t[i].0));
                    let k = choose|k: int|
                        0 <= k < d.len() && (#[trigger] d[k]).type_of is Script
                            && d[k].load_order == Some(t[i].0);
                    assert(s[k].load_order != s[s.len() - 1].load_order);
                }
            }
        }
    }
}

/// Splitting an insertion at the first position whose suffix is all larger.
proof fn lemma_insert_sorted_split(x: (usize, String), t: Seq<(usize, String)>, j: int)
    requires
        0 <= j <= t.len(),
        forall|m: int| j <= m < t.len() ==> (#[trigger] t[m]).0 > x.0,
        j > 0 ==> t[j - 1].0 < x.0,
    ensures
        insert_sorted(x, t) == t.take(j) + seq![x] + t.skip(j),
    decreases t.len(),
{
    if t.len() == 0 {
        assert(insert_sorted(x, t) =~= t.take(j) + seq![x] + t.skip(j));
    } else if j == t.len() {
        assert(t[j - 1].0 < x.0);
        assert(insert_sorted(x, t) == t.push(x));
        assert(t.push(x) =~= t.take(j) + seq![x] + t.skip(j));
    } else {
        assert(t.last().0 > x.0);
        let d = t.drop_last();
        assert(forall|i: int| 0 <= i < d.len() ==> d[i] == t[i]);
        lemma_insert_sorted_split(x, d, j);
        assert(insert_sorted(x, t) == insert_sorted(x, d).push(t.last()));
        assert((d.take(j) + seq![x] + d.skip(j)).push(t.last()) =~= t.take(j) + seq![x] + t.skip(
            j,
        ));
    }
}

fn append_stmt(out: &mut String, a: &Asset)
    requires
        !(a.type_of is Script),
        !(a.type_of is Font && a.load_type is External),
    ensures
        final(out)@ == old(out)@ + stmt_for(*a),
{
    match (a.type_of, a.load_type) {
        (AssetType::Texture, LoadType::Emdedded) => {
            out.append("\t\tembed_texture!(\"");
            out.append(a.path.as_str());
            out.append("\", state, app);\n");
        },
        (AssetType::Texture, LoadType::External) => {
            out.append("\t\tload_texture!(\"");
            out.append(a.path.as_str());
            out.append("\", state, app);\n");
        },
        (AssetType::Sfx, LoadType::Emdedded) => {
            out.append("\t\tembed_sfx!(\"");
            out.append(a.path.as_str());
            out.append("\", state);\n");
        },
        (AssetType::Sfx, LoadType::External) => {
            out.append("\t\tload_sfx!(\"");
            out.append(a.path.as_str());
            out.append("\", state);\n");
        },
        (AssetType::Music, LoadType::Emdedded) => {
            out.append("\t\tembed_music!(\"");
            out.append(a.path.as_str());
            out.append("\", state);\n");
        },
        (AssetType::Music, LoadType::External) => {
            out.append("\t\tload_music!(\"");
            out.append(a.path.as_str());
            out.append("\", state);\n");
        },
        (AssetType::Font, LoadType::Emdedded) => {
            out.append("\t\tembed_font!(\"");
            out.append(a.path.as_str());
            out.append("\", state);\n");
        },
        _ => {
            proof {
                assert(false);
            }
        },
    }
}

/// Renders the asset registry into the generated source stub: the fixed
/// template with one load statement per asset — non-Scripts in registry
/// order, Scripts appended after them in ascending load order — and the
/// window size substituted. The result is a pure function of the registry
/// and the window size, so rendering twice with no intervening mutation is
/// byte-identical; the template is a fixed constant, never mutated in
/// place, so repeated generation cannot accumulate statements. A Script or
/// Font registered with the External strategy aborts with
/// `InvalidStrategy`; Scripts whose load orders are not a total order (a
/// missing or duplicated order value) abort with `LoadOrderCollision`.
/// Either abort produces no output.
pub fn render(config: &Config) -> (r: Result<String, EditorError>)
    ensures
        match r {
            Ok(t) => {
                &&& !has_illegal_strategy(config.assets@)
                &&& orders_total(config.assets@)
                &&& t@ == spec_render(config.assets@, config.window_size)
            },
            Err(EditorError::InvalidStrategy) => has_illegal_strategy(config.assets@),
            Err(EditorError::LoadOrderCollision) => !has_illegal_strategy(config.assets@)
                && !orders_total(config.assets@),
            Err(_) => false,
        },
{
    let n = config.assets.len();
    // reject kinds that must be embedded but are registered external
    for i in 0..n
        invariant
            n == config.assets@.len(),
            forall|j: int|
                0 <= j < i ==> !(((#[trigger] config.assets@[j]).type_of is Script
                    || config.assets@[j].type_of is Font) && config.assets@[j].load_type
                    is External),
    {
        let a = &config.assets[i];
        let must_embed = match a.type_of {
            AssetType::Script => true,
            AssetType::Font => true,
            _ => false,
        };
        let is_external = match a.load_type {
            LoadType::External => true,
            _ => false,
        };
        if must_embed && is_external {
            assert(((config.assets@[i as int].type_of is Script || config.assets@[i as int].type_of
                is Font) && config.assets@[i as int].load_type is External));
            return Err(EditorError::InvalidStrategy);
        }
    }
    // demand a total order on the Scripts
    for i in 0..n
        invariant
            n == config.assets@.len(),
            !has_illegal_strategy(config.assets@),
            forall|k: int|
                0 <= k < i && (#[trigger] config.assets@[k]).type_of is Script
                    ==> config.assets@[k].load_order is Some,
            forall|k1: int, k2: int|
                0 <= k1 < k2 < i && (#[trigger] config.assets@[k1]).type_of is Script && (
                #[trigger] config.assets@[k2]).type_of is Script ==> config.assets@[k1].load_order
                    != config.assets@[k2].load_order,
    {
        let a = &config.assets[i];
        let is_script = match a.type_of {
            AssetType::Script => true,
            _ => false,
        };
        if is_script {
            let o = match a.load_order {
                Some(o) => o,
                None => {
                    return Err(EditorError::LoadOrderCollision);
                },
            };
            for j in 0..i
                invariant
                    n == config.assets@.len(),
                    i < n,
                    !has_illegal_strategy(config.assets@),
                    config.assets@[i as int].type_of is Script,
                    config.assets@[i as int].load_order == Some(o),
                    forall|k: int|
                        0 <= k < j ==> !((#[trigger] config.assets@[k]).type_of is Script
                            && config.assets@[k].load_order == Some(o)),
            {
                let b = &config.assets[j];
                let b_script = match b.type_of {
                    AssetType::Script => true,
                    _ => false,
                };
                if b_script {
                    if let Some(bo) = b.load_order {
                        if bo == o {
                            assert(config.assets@[j as int].type_of is Script
                                && config.assets@[j as int].load_order
                                == config.assets@[i as int].load_order);
                            return Err(EditorError::LoadOrderCollision);
                        }
                    }
                }
            }
        }
    }
    assert(orders_total(config.assets@));

    // the template head, then one statement per non-Script asset
    let mut text =
        "\n    use lilah::application::*;\n    use lilah::math::Vec2;\n    use lilah::world::*;\n\n    fn setup(app : &mut App, state : &mut WorldState, scripting : &mut Scripting) {\n\n".to_owned();
    let mut scripts: Vec<(usize, String)> = Vec::new();
    for i in 0..n
        invariant
            n == config.assets@.len(),
            !has_illegal_strategy(config.assets@),
            orders_total(config.assets@),
            text@ == template_head() + nonscript_block(config.assets@.take(i as int)),
            scripts@ == scripts_of(config.assets@.take(i as int)),
    {
        proof {
            let pre = config.assets@.take(i as int);
            let post = config.assets@.take(i + 1);
            assert(post.drop_last() =~= pre);
            assert(post.last() == config.assets@[i as int]);
        }
        let a = &config.assets[i];
        let is_script = match a.type_of {
            AssetType::Script => true,
            _ => false,
        };
        if is_script {
            let o = match a.load_order {
                Some(o) => o,
                None => {
                    proof {
                        assert(config.assets@[i as int].load_order is Some);
                    }
                    0
                },
            };
            scripts.push((o, a.path.clone()));
            proof {
                assert(scripts@ =~= scripts_of(config.assets@.take(i + 1)));
                assert(text@ =~= template_head() + nonscript_block(config.assets@.take(i + 1)));
            }
        } else {
            append_stmt(&mut text, a);
            proof {
                assert(scripts@ =~= scripts_of(config.assets@.take(i + 1)));
                assert(text@ =~= template_head() + nonscript_block(config.assets@.take(i + 1)));
            }
        }
    }
    proof {
        assert(config.assets@.take(n as int) =~= config.assets@);
        lemma_scripts_of_distinct(config.assets@);
    }

    // sort the collected scripts ascending by load order
    let mut sorted: Vec<(usize, String)> = Vec::new();
    let m = scripts.len();
    for i in 0..m
        invariant
            m == scripts@.len(),
            scripts@ == scripts_of(config.assets@),
            forall|p: int, q: int|
                0 <= p < q < scripts@.len() ==> (#[trigger] scripts@[p]).0 != (
                #[trigger] scripts@[q]).0,
            sorted@ == sort_scripts(scripts@.take(i as int)),
            asc(sorted@),
            forall|o: usize|
                #[trigger] order_in(sorted@, o) <==> order_in(scripts@.take(i as int), o),
    {
        let x_order = scripts[i].0;
        let x = (x_order, scripts[i].1.clone());
        proof {
            assert(x == scripts@[i as int]);
            assert(!order_in(sorted@, x_order)) by {
                if order_in(scripts@.take(i as int), x_order) {
                    let jj = choose|jj: int|
                        0 <= jj < scripts@.take(i as int).len() && (#[trigger] scripts@.take(
                            i as int,
                        )[jj]).0 == x_order;
                    assert(scripts@[jj].0 == scripts@[i as int].0);
                }
            }
        }
        let mut j = sorted.len();
        while j > 0 && sorted[j - 1].0 > x_order
            invariant
                j <= sorted@.len(),
                forall|mm: int| j <= mm < sorted@.len() ==> (#[trigger] sorted@[mm]).0 > x_order,
            decreases j,
        {
            j = j - 1;
        }
        proof {
            if j > 0 {
                assert(sorted@[j - 1].0 != x_order) by {
                    if sorted@[j - 1].0 == x_order {
                        assert(order_in(sorted@, x_order));
                    }
                }
            }
            lemma_insert_sorted_split(x, sorted@, j as int);
            lemma_insert_sorted_props(x, sorted@);
        }
        let ghost pre_sorted = sorted@;
        sorted.insert(j, x);
        proof {
            assert(sorted@ =~= pre_sorted.take(j as int) + seq![x] + pre_sorted.skip(j as int));
            assert(sorted@ == insert_sorted(x, pre_sorted));
            let pre = scripts@.take(i as int);
            let post = scripts@.take(i + 1);
            assert(post.drop_last() =~= pre);
            assert(post.last() == scripts@[i as int]);
            assert(sorted@ == sort_scripts(post));
            assert forall|o: usize| #[trigger] order_in(sorted@, o) implies order_in(post, o) by {
                assert(order_in(insert_sorted(x, pre_sorted), o));
                assert(order_in(pre_sorted, o) || o == x.0);
                if order_in(pre_sorted, o) {
                    assert(order_in(pre, o));
                    let jj = choose|jj: int| 0 <= jj < pre.len() && (#[trigger] pre[jj]).0 == o;
                    assert(post[jj].0 == o);
                } else {
                    assert(o == x_order);
                    assert(post[i as int].0 == o);
                }
            }
            assert forall|o: usize| order_in(post, o) implies #[trigger] order_in(sorted@, o) by {
                let jj = choose|jj: int| 0 <= jj < post.len() && (#[trigger] post[jj]).0 == o;
                if jj < i {
                    assert(pre[jj].0 == o);
                    assert(order_in(pre, o));
                    assert(order_in(pre_sorted, o));
                } else {
                    assert(o == x.0);
                }
                assert(order_in(insert_sorted(x, pre_sorted), o));
            }
        }
    }
    proof {
        assert(scripts@.take(m as int) =~= scripts@);
    }

    // the Scripts' statements, ascending by load order
    let k = sorted.len();
    for i in 0..k
        invariant
            k == sorted@.len(),
            sorted@ == sort_scripts(scripts_of(config.assets@)),
            text@ == template_head() + nonscript_block(config.assets@) + script_block(
                sorted@.take(i as int),
            ),
    {
        proof {
            let pre = sorted@.take(i as int);
            let post = sorted@.take(i + 1);
            assert(post.drop_last() =~= pre);
            assert(post.last() == sorted@[i as int]);
        }
        text.append("\t\tembed_script!(\"");
        text.append(sorted[i].1.as_str());
        text.append("\", scripting);\n");
        proof {
            assert(text@ =~= template_head() + nonscript_block(config.assets@) + script_block(
                sorted@.take(i + 1),
            ));
        }
    }
    proof {
        assert(sorted@.take(k as int) =~= sorted@);
    }

    // the template middle, the window size, and the template tail
    text.append("\n    }\n\n    pub fn main() {  \n        let mut app = App::new(\"Lilah\", ");
    text.append("Vec2.new(");
    let w = u32_dec(config.window_size.0);
    text.append(w.as_str());
    text.append(", ");
    let h = u32_dec(config.window_size.1);
    text.append(h.as_str());
    text.append(")");
    text.append(
        ");\n        let mut scripting = Scripting::new();\n\n        World::new()\n            .setup(Box::new(setup))\n        .run(&mut app, &mut scripting);  \n    }\n",
    );
    proof {
        assert(text@ =~= spec_render(config.assets@, config.window_size));
    }
    Ok(text)
}

/// LAW: rendering is deterministic. The rendered stub is a pure function of
/// the registry contents and the window size — `render` ensures its output
/// equals `spec_render` of them — so two renders with no intervening
/// mutation yield identical output.
pub proof fn lemma_render_deterministic(
    t1: Seq<char>,
    t2: Seq<char>,
    s: Seq<Asset>,
    window_size: (u32, u32),
)
    requires
        t1 == spec_render(s, window_size),
        t2 == spec_render(s, window_size),
    ensures
        t1 == t2,
{
}

impl crate::editor::App {
    /// Renders this project's registry into its source stub; see [`render`].
    pub fn wrangle_main(&self) -> (r: Result<String, EditorError>)
        ensures
            match r {
                Ok(t) => {
                    &&& !has_illegal_strategy(self.config.assets@)
                    &&& orders_total(self.config.assets@)
                    &&& t@ == spec_render(self.config.assets@, self.config.window_size)
                },
                Err(EditorError::InvalidStrategy) => has_illegal_strategy(self.config.assets@),
                Err(EditorError::LoadOrderCollision) => !has_illegal_strategy(self.config.assets@)
                    && !orders_total(self.config.assets@),
                Err(_) => false,
            },
    {
        render(&self.config)
    }
}

/// The source stub a fresh project starts from: the fixed template with its
/// two placeholders still in place, which rendering later substitutes.
pub open spec fn main_stub_text() -> Seq<char> {
    template_head() + "//ASSETS"@ + template_mid() + "WINDOW_SIZE"@ + template_tail()
}

/// The initial source stub written into a freshly scaffolded project.
pub fn project_main_stub() -> (r: String)
    ensures
        r@ == main_stub_text(),
{
    let mut text =
        "\n    use lilah::application::*;\n    use lilah::math::Vec2;\n    use lilah::world::*;\n\n    fn setup(app : &mut App, state : &mut WorldState, scripting : &mut Scripting) {\n\n".to_owned();
    text.append("//ASSETS");
    text.append("\n    }\n\n    pub fn main() {  \n        let mut app = App::new(\"Lilah\", ");
    text.append("WINDOW_SIZE");
    text.append(
        ");\n        let mut scripting = Scripting::new();\n\n        World::new()\n            .setup(Box::new(setup))\n        .run(&mut app, &mut scripting);  \n    }\n",
    );
    text
}

/// `s` with every occurrence of `pat` replaced by `sub`, scanning left to
/// right without rescanning substituted text.
pub open spec fn spec_replace_all(s: Seq<char>, pat: Seq<char>, sub: Seq<char>) -> Seq<char>
    recommends
        pat.len() > 0,
    decreases s.len(),
{
    if s.len() == 0 || pat.len() == 0 {
        s
    } else if s.len() >= pat.len() && s.take(pat.len() as int) == pat {
        sub + spec_replace_all(s.skip(pat.len() as int), pat, sub)
    } else {
        seq![s[0]] + spec_replace_all(s.skip(1), pat, sub)
    }
}

fn prefix_matches(s: &str, i: usize, pat: &str) -> (r: bool)
    requires
        i + pat@.len() <= s@.len() <= usize::MAX,
    ensures
        r == (s@.subrange(i as int, i + pat@.len()) == pat@),
{
    let p = pat.unicode_len();
    for j in 0..p
        invariant
            p == pat@.len(),
            i + p <= s@.len() <= usize::MAX,
            forall|m: int| 0 <= m < j ==> s@[i + m] == pat@[m],
    {
        if s.get_char(i + j) != pat.get_char(j) {
            proof {
                assert(s@.subrange(i as int, i + pat@.len())[j as int] != pat@[j as int]);
            }
            return false;
        }
    }
    proof {
        assert(s@.subrange(i as int, i + pat@.len()) =~= pat@);
    }
    true
}

/// `s` with every occurrence of `pat` replaced by `sub`.
pub fn replace_all(s: &str, pat: &str, sub: &str) -> (r: String)
    requires
        pat@.len() > 0,
    ensures
        r@ == spec_replace_all(s@, pat@, sub@),
{
    let n = s.unicode_len();
    let p = pat.unicode_len();
    let mut out = String::new();
    let mut i: usize = 0;
    proof {
        assert(s@.skip(0) =~= s@);
        assert(Seq::<char>::empty() + spec_replace_all(s@, pat@, sub@) =~= spec_replace_all(
            s@,
            pat@,
            sub@,
        ));
    }
    while i < n
        invariant
            n == s@.len(),
            p == pat@.len(),
            p > 0,
            i <= n,
            out@ + spec_replace_all(s@.skip(i as int), pat@, sub@) == spec_replace_all(
                s@,
                pat@,
                sub@,
            ),
        decreases n - i,
    {
        let ghost rest = s@.skip(i as int);
        let is_match = if p <= n - i {
            prefix_matches(s, i, pat)
        } else {
            false
        };
        if is_match {
            proof {
                assert(rest.take(p as int) =~= s@.subrange(i as int, i + p));
                assert(rest.skip(p as int) =~= s@.skip(i + p));
                assert(out@ + (sub@ + spec_replace_all(s@.skip(i + p), pat@, sub@)) =~= (out@
                    + sub@) + spec_replace_all(s@.skip(i + p), pat@, sub@));
            }
            out.append(sub);
            i = i + p;
        } else {
            proof {
                if rest.len() >= p && rest.take(p as int) == pat@ {
                    assert(rest.take(p as int) =~= s@.subrange(i as int, i + p));
                }
                assert(rest[0] == s@[i as int]);
                assert(rest.skip(1) =~= s@.skip(i + 1));
                assert(s@.subrange(i as int, i + 1) =~= seq![s@[i as int]]);
                assert(out@ + (seq![s@[i as int]] + spec_replace_all(s@.skip(i + 1), pat@, sub@))
                    =~= (out@ + seq![s@[i as int]]) + spec_replace_all(s@.skip(i + 1), pat@, sub@));
            }
            out.append(s.substring_char(i, i + 1));
            i = i + 1;
        }
    }
    proof {
        assert(s@.skip(n as int) =~= Seq::<char>::empty());
        assert(out@ + Seq::<char>::empty() =~= out@);
    }
    out
}

/// The dependency block a freshly scaffolded manifest's `[dependencies]`
/// header is expanded to: the engine and its font dependency.
pub open spec fn cargo_dependency_block() -> Seq<char> {
    "[dependencies]\nlilah = { git = \"https://github.com/dollerama/lilah.git\" }\nrusttype = \"*\""@
}

/// Expands the `[dependencies]` header of a freshly scaffolded manifest to
/// the engine's dependency block.
pub fn patch_manifest(manifest: &str) -> (r: String)
    ensures
        r@ == spec_replace_all(manifest@, "[dependencies]"@, cargo_dependency_block()),
{
    proof {
        reveal_strlit("[dependencies]");
    }
    replace_all(
        manifest,
        "[dependencies]",
        "[dependencies]\nlilah = { git = \"https://github.com/dollerama/lilah.git\" }\nrusttype = \"*\"",
    )
}

} // verus!
