//! What holds of every command line.

use vstd::prelude::*;

use crate::area::{if_any, separates, words, words_from};
use crate::options::{
    command_exit, command_in, options_in, read_args, value_of, without_dashes, CommandView, OptsView,
};
use crate::text::begins;

verus! {

/// Arguments are read from left to right: what was read stays, and what follows is read after it.
pub proof fn law_read_in_turn(
    first: Seq<Seq<char>>,
    rest: Seq<Seq<char>>,
    keys: Seq<(Seq<char>, Seq<char>)>,
    path: Option<Seq<char>>,
)
    requires
        read_args(first, keys, path) is Ok,
    ensures
        ({
            let (k, p) = read_args(first, keys, path)->Ok_0;
            read_args(first + rest, keys, path) == read_args(rest, k, p)
        }),
    decreases first.len(),
{
    let all = first + rest;
    if first.len() == 0 {
        assert(all =~= rest);
    } else {
        assert(all[0] == first[0]);
        if first[0] == "--dry-run"@ || first[0] == "--json"@ {
            law_read_in_turn(first.skip(1), rest, keys, path);
            assert(all.skip(1) =~= first.skip(1) + rest);
        } else if begins(first[0], "--"@) || first[0] == "-o"@ {
            let more = keys.push((without_dashes(first[0]), first[1]));
            law_read_in_turn(first.skip(2), rest, more, path);
            assert(all[1] == first[1]);
            assert(all.skip(2) =~= first.skip(2) + rest);
        } else {
            law_read_in_turn(first.skip(1), rest, keys, Some(first[0]));
            assert(all.skip(1) =~= first.skip(1) + rest);
        }
    }
}

/// Whether a text begins with a dash.
pub open spec fn dashed(a: Seq<char>) -> bool {
    a.len() > 0 && a[0] == '-'
}

/// Whether an argument is an option, which takes the argument behind it.
pub open spec fn is_option(a: Seq<char>) -> bool {
    &&& a != "--dry-run"@
    &&& a != "--json"@
    &&& (dashed(a) && a.len() > 1 && a[1] == '-') || a == "-o"@
}

/// One dash is one, two are two.
proof fn lemma_dashes(a: Seq<char>)
    ensures
        begins(a, "-"@) <==> dashed(a),
        begins(a, "--"@) <==> dashed(a) && a.len() > 1 && a[1] == '-',
        dashed("--dry-run"@),
        dashed("--json"@),
        dashed("-o"@),
        "-o"@.len() == 2 && "-o"@[1] == 'o',
{
    reveal_strlit("-");
    reveal_strlit("--");
    reveal_strlit("-o");
    reveal_strlit("--dry-run");
    reveal_strlit("--json");
    if dashed(a) {
        assert(a.take(1) =~= "-"@);
        if a.len() > 1 && a[1] == '-' {
            assert(a.take(2) =~= "--"@);
        }
    }
    if begins(a, "-"@) {
        assert(a.take(1)[0] == a[0]);
    }
    if begins(a, "--"@) {
        assert(a.take(2)[0] == a[0] && a.take(2)[1] == a[1]);
    }
}

/// What one more argument does, or an option with its value: a path replaces the one there was, an
/// option adds its value behind the others, a switch adds neither, an option without its value is an
/// error and so is any other word that begins with a dash.
pub proof fn law_one_more_argument(args: Seq<Seq<char>>, opts: OptsView, a: Seq<char>, value: Seq<char>)
    requires
        options_in(args) == Ok::<OptsView, Seq<char>>(opts),
    ensures
        ({
            let one = options_in(args.push(a));
            let two = options_in(args.push(a).push(value));
            &&& !dashed(a) ==> (one matches Ok(o) && o.odb == a && o.keys == opts.keys && o.dry_run
                == opts.dry_run)
            &&& a == "--json"@ ==> (one matches Ok(o) && o == opts)
            &&& a == "--dry-run"@ ==> (one matches Ok(o) && o.odb == opts.odb && o.keys == opts.keys
                && o.dry_run)
            &&& is_option(a) ==> (one matches Err(e) && e == a + " needs a value"@)
            &&& is_option(a) ==> (two matches Ok(o) && o.odb == opts.odb && o.keys == opts.keys.push(
                (without_dashes(a), value),
            ) && (o.dry_run <==> opts.dry_run || value == "--dry-run"@))
            &&& dashed(a) && !is_option(a) && a != "--json"@ && a != "--dry-run"@ ==> (
            one matches Err(e) && e == "unknown option `"@ + a + "`"@)
        }),
{
    let none = Seq::<(Seq<char>, Seq<char>)>::empty();
    let dry = "--dry-run"@;
    lemma_dashes(a);
    let one = seq![a];
    let two = seq![a, value];
    law_read_in_turn(args, one, none, None);
    law_read_in_turn(args, two, none, None);
    assert(args + one =~= args.push(a));
    assert(args + two =~= args.push(a).push(value));
    assert(one[0] == a && two[0] == a && two[1] == value);
    let (k, p) = (opts.keys, Some(opts.odb));
    assert(read_args(args, none, None) == Ok::<
        (Seq<(Seq<char>, Seq<char>)>, Option<Seq<char>>),
        Seq<char>,
    >((k, p)));
    let end = one.skip(1);
    assert(end.len() == 0);
    let end2 = two.skip(2);
    assert(end2.len() == 0);
    lemma_pushed(args, a, dry);
    lemma_pushed(args.push(a), value, dry);
    assert(is_option(a) ==> a != dry);
    lemma_no_dash_no_switch(a);
    if is_option(a) {
        assert(read_args(end2, k.push((without_dashes(a), value)), p) == Ok::<
            (Seq<(Seq<char>, Seq<char>)>, Option<Seq<char>>),
            Seq<char>,
        >((k.push((without_dashes(a), value)), p)));
    }
    assert(read_args(end, k, p) == Ok::<
        (Seq<(Seq<char>, Seq<char>)>, Option<Seq<char>>),
        Seq<char>,
    >((k, p)));
    assert(read_args(end, k, Some(a)) == Ok::<
        (Seq<(Seq<char>, Seq<char>)>, Option<Seq<char>>),
        Seq<char>,
    >((k, Some(a))));
    reveal_strlit("--json");
    reveal_strlit("--dry-run");
    assert("--json"@.len() != "--dry-run"@.len());
}

/// What an argument does after others, whether or not they held a path: a path replaces the one there
/// was, an option adds its value behind the others, a switch adds neither; an option that ends the
/// line is an error, and any other word that begins with a dash is one whatever follows it. With the
/// arguments read, the options are those given, and the path the last one.
pub proof fn law_each_argument(
    args: Seq<Seq<char>>,
    keys: Seq<(Seq<char>, Seq<char>)>,
    path: Option<Seq<char>>,
    a: Seq<char>,
    rest: Seq<Seq<char>>,
)
    requires
        read_args(args, Seq::empty(), None) == Ok::<
            (Seq<(Seq<char>, Seq<char>)>, Option<Seq<char>>),
            Seq<char>,
        >((keys, path)),
    ensures
        ({
            let all = args.push(a) + rest;
            let read = read_args(all, Seq::empty(), None);
            let switch = a == "--json"@ || a == "--dry-run"@;
            &&& !dashed(a) ==> read == read_args(rest, keys, Some(a))
            &&& switch ==> read == read_args(rest, keys, path)
            &&& is_option(a) && rest.len() == 0 ==> (read matches Err(e) && e == a
                + " needs a value"@)
            &&& is_option(a) && rest.len() > 0 ==> read == read_args(
                rest.skip(1),
                keys.push((without_dashes(a), rest[0])),
                path,
            )
            &&& dashed(a) && !is_option(a) && !switch ==> (read matches Err(e) && e
                == "unknown option `"@ + a + "`"@)
        }),
        match path {
            Some(p) => options_in(args) matches Ok(o) && o.odb == p && o.keys == keys && (o.dry_run
                <==> args.contains("--dry-run"@)),
            None => options_in(args) matches Err(e) && e == "a path to a .odb is required"@,
        },
{
    let none = Seq::<(Seq<char>, Seq<char>)>::empty();
    let more = seq![a] + rest;
    lemma_dashes(a);
    lemma_no_dash_no_switch(a);
    law_read_in_turn(args, more, none, None);
    assert(args + more =~= args.push(a) + rest);
    assert(more[0] == a);
    assert(more.skip(1) =~= rest);
    if rest.len() > 0 {
        assert(more[1] == rest[0]);
        assert(more.skip(2) =~= rest.skip(1));
    }
}

/// The switches and the short option begin with a dash.
proof fn lemma_no_dash_no_switch(a: Seq<char>)
    ensures
        !dashed(a) ==> a != "--dry-run"@ && a != "--json"@ && a != "-o"@,
{
    lemma_dashes(a);
}

/// What is among the arguments with one more.
proof fn lemma_pushed(args: Seq<Seq<char>>, a: Seq<char>, x: Seq<char>)
    ensures
        args.push(a).contains(x) <==> args.contains(x) || a == x,
{
    let all = args.push(a);
    if args.contains(x) {
        let i = choose|i: int| 0 <= i < args.len() && args[i] == x;
        assert(all[i] == x);
    }
    if a == x {
        assert(all[args.len() as int] == x);
    }
    if all.contains(x) && a != x {
        let i = choose|i: int| 0 <= i < all.len() && all[i] == x;
        assert(args[i] == x);
    }
}

/// A run needs a path: without one it is an error, and one alone is enough.
pub proof fn law_path_is_needed(a: Seq<char>)
    ensures
        options_in(Seq::empty()) == Err::<OptsView, Seq<char>>("a path to a .odb is required"@),
        !dashed(a) ==> (options_in(seq![a]) matches Ok(o) && o.odb == a && o.keys.len() == 0
            && !o.dry_run),
{
    lemma_dashes(a);
    let one = seq![a];
    let end = one.skip(1);
    assert(end.len() == 0);
    assert(one[0] == a);
    lemma_no_dash_no_switch(a);
    if !dashed(a) {
        let none = Seq::<(Seq<char>, Seq<char>)>::empty();
        assert(read_args(end, none, Some(a)) == Ok::<
            (Seq<(Seq<char>, Seq<char>)>, Option<Seq<char>>),
            Seq<char>,
        >((none, Some(a))));
        if one.contains("--dry-run"@) {
            let i = choose|i: int| 0 <= i < one.len() && one[i] == "--dry-run"@;
            assert(one[i] == a);
        }
    }
}

/// An option is known without its dashes: all those in front, and nothing else, are left out.
pub proof fn law_without_dashes(a: Seq<char>)
    ensures
        ({
            let r = without_dashes(a);
            let n = a.len() - r.len();
            &&& 0 <= n
            &&& !dashed(r)
            &&& a.skip(n) == r
            &&& forall|i: int| 0 <= i < n ==> #[trigger] a[i] == '-'
        }),
    decreases a.len(),
{
    let r = without_dashes(a);
    if dashed(a) {
        let rest = a.skip(1);
        law_without_dashes(rest);
        let n = a.len() - r.len();
        assert(a.skip(n) =~= rest.skip(n - 1));
        assert forall|i: int| 0 <= i < n implies #[trigger] a[i] == '-' by {
            if i > 0 {
                assert(rest[i - 1] == '-');
            }
        }
    } else {
        assert(a.skip(0) =~= a);
    }
}

/// Of the values given for an option the first one counts.
pub proof fn law_first_value_counts(opts: OptsView, key: Seq<char>, i: int)
    ensures
        0 <= i < opts.keys.len() && opts.keys[i].0 == key && (forall|j: int|
            0 <= j < i ==> (#[trigger] opts.keys[j]).0 != key) ==> opts.value(key) == Some(
            opts.keys[i].1,
        ),
        (forall|j: int| 0 <= j < opts.keys.len() ==> (#[trigger] opts.keys[j]).0 != key)
            ==> opts.value(key) is None,
{
    lemma_first_value(opts.keys, key, i);
}

/// The same of the pairs.
proof fn lemma_first_value(keys: Seq<(Seq<char>, Seq<char>)>, key: Seq<char>, i: int)
    ensures
        0 <= i < keys.len() && keys[i].0 == key && (forall|j: int|
            0 <= j < i ==> (#[trigger] keys[j]).0 != key) ==> value_of(keys, key) == Some(keys[i].1),
        (forall|j: int| 0 <= j < keys.len() ==> (#[trigger] keys[j]).0 != key) ==> value_of(
            keys,
            key,
        ) is None,
    decreases keys.len(),
{
    if keys.len() > 0 {
        let rest = keys.skip(1);
        assert(forall|j: int| 0 <= j < rest.len() ==> rest[j] == keys[j + 1]);
        if keys[0].0 != key {
            lemma_first_value(rest, key, i - 1);
            if 0 <= i < keys.len() && keys[i].0 == key && (forall|j: int|
                0 <= j < i ==> (#[trigger] keys[j]).0 != key) {
                assert(rest[i - 1] == keys[i]);
                assert forall|j: int| 0 <= j < i - 1 implies (#[trigger] rest[j]).0 != key by {
                    assert(keys[j + 1].0 != key);
                }
            }
            if forall|j: int| 0 <= j < keys.len() ==> (#[trigger] keys[j]).0 != key {
                assert forall|j: int| 0 <= j < rest.len() implies (#[trigger] rest[j]).0 != key by {
                    assert(keys[j + 1].0 != key);
                }
            }
        } else {
            assert(keys[0].0 == key);
        }
    }
}

/// Whether one of the words is among the arguments.
pub open spec fn asks(args: Seq<Seq<char>>, a: Seq<char>, b: Seq<char>) -> bool {
    exists|i: int| 0 <= i < args.len() && (#[trigger] args[i] == a || args[i] == b)
}

/// Which command the arguments ask for: the version, or else the description, or else the help,
/// wherever it stands; or else what comes first, with all that follows it. Only a run has no exit
/// status yet; what there is not, and no command at all, are errors.
pub proof fn law_commands(args: Seq<Seq<char>>)
    ensures
        ({
            let c = command_in(args);
            let version = asks(args, "--version"@, "-V"@);
            let describe = asks(args, "--describe"@, "--describe"@);
            let help = asks(args, "--help"@, "-h"@);
            &&& c is Version <==> version
            &&& c is Describe <==> !version && describe
            &&& c is Help <==> !version && !describe && help
            &&& c is NoCommand <==> args.len() == 0
            &&& c is DensityFill <==> !version && !describe && !help && args.len() > 0 && args[0]
                == "density-fill"@
            &&& c is Unknown <==> !version && !describe && !help && args.len() > 0 && args[0]
                != "density-fill"@
            &&& c matches CommandView::DensityFill(rest) ==> seq![args[0]] + rest == args
            &&& c matches CommandView::Unknown(name) ==> name == args[0]
            &&& command_exit(c) is None <==> c is DensityFill
            &&& command_exit(c) == Some(0u8) <==> version || describe || help
            &&& command_exit(c) == Some(2u8) <==> c is Unknown || c is NoCommand
        }),
{
    lemma_asks(args, "--version"@, "-V"@);
    lemma_asks(args, "--describe"@, "--describe"@);
    lemma_asks(args, "--help"@, "-h"@);
    if args.len() > 0 {
        assert(seq![args[0]] + args.skip(1) =~= args);
    }
}

/// What is asked for is among the arguments.
proof fn lemma_asks(args: Seq<Seq<char>>, a: Seq<char>, b: Seq<char>)
    ensures
        asks(args, a, b) <==> args.contains(a) || args.contains(b),
{
    if asks(args, a, b) {
        let i = choose|i: int| 0 <= i < args.len() && (#[trigger] args[i] == a || args[i] == b);
        assert(args[i] == a || args[i] == b);
    }
    if args.contains(a) {
        let i = choose|i: int| 0 <= i < args.len() && args[i] == a;
        assert(args[i] == a);
    }
    if args.contains(b) {
        let i = choose|i: int| 0 <= i < args.len() && args[i] == b;
        assert(args[i] == b);
    }
}

/// Whether a text holds no space and no comma.
pub open spec fn unbroken(text: Seq<char>) -> bool {
    forall|i: int| 0 <= i < text.len() ==> #[trigger] text[i] != ' ' && text[i] != ','
}

/// Spaces and commas separate words, wherever they stand and however many there are: a text without
/// any is one word, or none where it is empty, and around one of them the words are those before it
/// and those behind it.
pub proof fn law_words(a: Seq<char>, c: char, b: Seq<char>)
    requires
        c == ' ' || c == ',',
    ensures
        words(a.push(c) + b) == words(a) + words(b),
        unbroken(a) && a.len() > 0 ==> words(a) == seq![a],
        words(Seq::empty()).len() == 0,
{
    lemma_words_split(Seq::empty(), a, c, b);
    if unbroken(a) {
        lemma_one_word(Seq::empty(), a);
        assert(Seq::<char>::empty() + a =~= a);
    }
}

/// The words around a separator, where `word` stands before.
proof fn lemma_words_split(word: Seq<char>, a: Seq<char>, c: char, b: Seq<char>)
    requires
        separates(c),
    ensures
        words_from(word, a.push(c) + b) == words_from(word, a) + words(b),
    decreases a.len(),
{
    let all = a.push(c) + b;
    if a.len() == 0 {
        assert(all[0] == c);
        assert(all.skip(1) =~= b);
    } else {
        assert(all[0] == a[0]);
        assert(all.skip(1) =~= a.skip(1).push(c) + b);
        if separates(a[0]) {
            lemma_words_split(Seq::empty(), a.skip(1), c, b);
            assert(if_any(word) + (words_from(Seq::empty(), a.skip(1)) + words(b)) =~= if_any(word)
                + words_from(Seq::empty(), a.skip(1)) + words(b));
        } else {
            lemma_words_split(word.push(a[0]), a.skip(1), c, b);
        }
    }
}

/// A text without a separator goes on with the word before it.
proof fn lemma_one_word(word: Seq<char>, a: Seq<char>)
    requires
        unbroken(a),
    ensures
        words_from(word, a) == if_any(word + a),
    decreases a.len(),
{
    if a.len() == 0 {
        assert(word + a =~= word);
    } else {
        assert(a[0] != ' ' && a[0] != ',');
        let rest = a.skip(1);
        assert forall|i: int| 0 <= i < rest.len() implies #[trigger] rest[i] != ' ' && rest[i]
            != ',' by {
            assert(a[i + 1] != ' ' && a[i + 1] != ',');
        }
        lemma_one_word(word.push(a[0]), rest);
        assert(word.push(a[0]) + rest =~= word + a);
    }
}

} // verus!
