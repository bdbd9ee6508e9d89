//! The symbols to stream: those that every enabled exchange trades, and the symbols
//! file, one symbol per line.

use vstd::prelude::*;

use vstd::string::StrSliceExecFns;

use crate::text::{first_index_of, strings_view};

verus! {

/// Appends `c` to `s` with `String::push`.
#[verifier::external_body]
fn push_char(s: &mut String, c: char)
    ensures
        final(s)@ == old(s)@.push(c),
{
    s.push(c)
}

/// The characters of `s`.
fn chars_of(s: &str) -> (res: Vec<char>)
    ensures
        res@ == s@,
{
    let mut out: Vec<char> = Vec::new();
    for c in it: s.chars()
        invariant
            out@ == it.seq().take(it.index() as int),
    {
        out.push(c);
    }
    out
}

/// A line without the carriage return that ends it, if any.
pub open spec fn without_cr(line: Seq<char>) -> Seq<char> {
    if line.len() > 0 && line.last() == '\r' {
        line.drop_last()
    } else {
        line
    }
}

/// The lines of a text, as `BufRead::lines` reads them: split at each `\n`, with the
/// `\r` before a `\n` removed; a last line with no `\n` is kept as it is, and an
/// empty text has no lines.
pub open spec fn lines(s: Seq<char>) -> Seq<Seq<char>>
    decreases s.len(),
{
    if s.len() == 0 {
        Seq::empty()
    } else {
        match first_index_of(s, '\n') {
            Some(i) => if 0 <= i < s.len() {
                seq![without_cr(s.take(i))] + lines(s.skip(i + 1))
            } else {
                Seq::empty()
            },
            None => seq![s],
        }
    }
}

proof fn lemma_first_newline(rest: Seq<char>, j: int)
    requires
        0 <= j < rest.len(),
        rest[j] == '\n',
        forall|k: int| 0 <= k < j ==> rest[k] != '\n',
    ensures
        first_index_of(rest, '\n') == Some(j),
{
    assert(forall|k: int|
        0 <= k < rest.len() && rest[k] == '\n' && (forall|m: int| 0 <= m < k ==> rest[m] != '\n')
            ==> k == j);
}

proof fn lemma_lines_step(s: Seq<char>, start: int, i: int)
    requires
        0 <= start <= i < s.len(),
        s[i] == '\n',
        forall|k: int| start <= k < i ==> s[k] != '\n',
    ensures
        lines(s.skip(start)) == seq![without_cr(s.subrange(start, i))] + lines(s.skip(i + 1)),
{
    let rest = s.skip(start);
    let j = i - start;
    lemma_first_newline(rest, j);
    assert(rest.take(j) =~= s.subrange(start, i));
    assert(rest.skip(j + 1) =~= s.skip(i + 1));
}

proof fn lemma_lines_end(s: Seq<char>, start: int)
    requires
        0 <= start <= s.len(),
        forall|k: int| start <= k < s.len() ==> s[k] != '\n',
    ensures
        start < s.len() ==> lines(s.skip(start)) == seq![s.skip(start)],
        start == s.len() ==> lines(s.skip(start)) == Seq::<Seq<char>>::empty(),
{
    let rest = s.skip(start);
    if start < s.len() {
        assert(!(exists|k: int| 0 <= k < rest.len() && rest[k] == '\n' && forall|m: int| 0 <= m < k ==> rest[m] != '\n'));
    } else {
        assert(rest.len() == 0);
    }
}

/// The lines of the content of a symbols file: the symbols, one per line.
pub fn split_lines(content: &str) -> (res: Vec<String>)
    ensures
        strings_view(res@) == lines(content@),
{
    let chars = chars_of(content);
    let ghost s = content@;
    let mut result: Vec<String> = Vec::new();
    let mut line = String::new();
    let mut start: usize = 0;
    let mut i: usize = 0;
    assert(s.skip(0) =~= s);
    assert(strings_view(result@) + lines(s.skip(0)) =~= lines(s));
    while i < chars.len()
        invariant
            chars@ == s,
            0 <= start <= i <= chars.len(),
            line@ == s.subrange(start as int, i as int),
            forall|k: int| start <= k < i ==> s[k] != '\n',
            lines(s) == strings_view(result@) + lines(s.skip(start as int)),
        decreases chars.len() - i,
    {
        let c = chars[i];
        if c == '\n' {
            proof {
                lemma_lines_step(s, start as int, i as int);
            }
            let n = line.unicode_len();
            let finished = if n > 0 && line.get_char(n - 1) == '\r' {
                line.substring_char(0, n - 1).to_owned()
            } else {
                line.as_str().to_owned()
            };
            assert(finished@ =~= without_cr(line@));
            let ghost before = strings_view(result@);
            result.push(finished);
            assert(strings_view(result@) =~= before.push(finished@));
            assert(lines(s) =~= strings_view(result@) + lines(s.skip(i + 1)));
            line = String::new();
            start = i + 1;
        } else {
            push_char(&mut line, c);
            assert(line@ =~= s.subrange(start as int, i + 1));
        }
        i = i + 1;
    }
    proof {
        lemma_lines_end(s, start as int);
    }
    if start < chars.len() {
        assert(line@ =~= s.skip(start as int));
        let ghost before = strings_view(result@);
        result.push(line);
        assert(strings_view(result@) =~= before.push(s.skip(start as int)));
    }
    assert(lines(s) =~= strings_view(result@));
    result
}

/// The text of a symbols file: each symbol followed by a `\n`.
pub open spec fn symbols_text(symbols: Seq<Seq<char>>) -> Seq<char>
    decreases symbols.len(),
{
    if symbols.len() == 0 {
        Seq::empty()
    } else {
        symbols[0] + seq!['\n'] + symbols_text(symbols.drop_first())
    }
}

proof fn lemma_symbols_text_push(symbols: Seq<Seq<char>>, x: Seq<char>)
    ensures
        symbols_text(symbols.push(x)) == symbols_text(symbols) + x + seq!['\n'],
    decreases symbols.len(),
{
    if symbols.len() == 0 {
        assert(symbols.push(x).drop_first() =~= Seq::<Seq<char>>::empty());
        assert(symbols_text(symbols.push(x).drop_first()) == Seq::<char>::empty());
        assert(symbols.push(x)[0] == x);
        assert(symbols_text(symbols) == Seq::<char>::empty());
        assert(symbols_text(symbols.push(x)) =~= x + seq!['\n']);
    } else {
        lemma_symbols_text_push(symbols.drop_first(), x);
        assert(symbols.push(x).drop_first() =~= symbols.drop_first().push(x));
        assert(symbols_text(symbols.push(x)) =~= symbols_text(symbols) + x + seq!['\n']);
    }
}

/// The text of a symbols file for `symbols`: each symbol on a line of its own.
pub fn symbols_file_text(symbols: &Vec<String>) -> (res: String)
    ensures
        res@ == symbols_text(strings_view(symbols@)),
{
    let ghost names = strings_view(symbols@);
    let mut text = String::new();
    let mut i: usize = 0;
    while i < symbols.len()
        invariant
            0 <= i <= symbols.len(),
            names == strings_view(symbols@),
            text@ == symbols_text(names.take(i as int)),
        decreases symbols.len() - i,
    {
        proof {
            lemma_symbols_text_push(names.take(i as int), names[i as int]);
            assert(names.take(i + 1) =~= names.take(i as int).push(names[i as int]));
        }
        text.append(symbols[i].as_str());
        push_char(&mut text, '\n');
        assert(text@ =~= symbols_text(names.take(i as int)) + names[i as int] + seq!['\n']);
        i = i + 1;
    }
    assert(names.take(symbols.len() as int) =~= names);
    text
}

/// A symbol can stand on a line of its own and be read back unchanged: it holds no
/// `\n` and does not end with `\r`.
pub open spec fn fits_one_line(symbol: Seq<char>) -> bool {
    &&& forall|k: int| 0 <= k < symbol.len() ==> symbol[k] != '\n'
    &&& symbol.len() > 0 ==> symbol.last() != '\r'
}

/// The symbols written to a symbols file are the lines read back from it.
pub proof fn law_symbols_file_round_trip(symbols: Seq<Seq<char>>)
    requires
        forall|i: int| 0 <= i < symbols.len() ==> fits_one_line(#[trigger] symbols[i]),
    ensures
        lines(symbols_text(symbols)) == symbols,
    decreases symbols.len(),
{
    if symbols.len() > 0 {
        let first = symbols[0];
        let rest = symbols.drop_first();
        assert forall|i: int| 0 <= i < rest.len() implies fits_one_line(#[trigger] rest[i]) by {
            assert(rest[i] == symbols[i + 1]);
        }
        law_symbols_file_round_trip(rest);
        let text = symbols_text(symbols);
        assert(fits_one_line(symbols[0]));
        assert(text == first + seq!['\n'] + symbols_text(rest));
        assert(text[first.len() as int] == '\n');
        assert forall|k: int| 0 <= k < first.len() implies text[k] != '\n' by {
            assert(text[k] == first[k]);
        }
        lemma_first_newline(text, first.len() as int);
        assert(text.take(first.len() as int) =~= first);
        assert(text.skip(first.len() as int + 1) =~= symbols_text(rest));
        assert(lines(text) =~= seq![first] + rest);
        assert(seq![first] + rest =~= symbols);
    }
}

/// The symbols of all the lists, one list after the other.
pub open spec fn all_listed(lists: Seq<Seq<Seq<char>>>) -> Seq<Seq<char>>
    decreases lists.len(),
{
    if lists.len() == 0 {
        Seq::empty()
    } else {
        all_listed(lists.drop_last()) + lists.last()
    }
}

/// How often `x` occurs in `s`.
pub open spec fn occurrences(s: Seq<Seq<char>>, x: Seq<char>) -> nat
    decreases s.len(),
{
    if s.len() == 0 {
        0
    } else {
        occurrences(s.drop_last(), x) + if s.last() == x {
            1nat
        } else {
            0nat
        }
    }
}

/// The symbols of `prefix` that occur `n` times in `all`, each once, in the order in
/// which they first occur.
pub open spec fn listed_n_times(prefix: Seq<Seq<char>>, all: Seq<Seq<char>>, n: nat) -> Seq<Seq<char>>
    decreases prefix.len(),
{
    if prefix.len() == 0 {
        Seq::empty()
    } else {
        let rest = listed_n_times(prefix.drop_last(), all, n);
        let x = prefix.last();
        if !prefix.drop_last().contains(x) && occurrences(all, x) == n {
            rest.push(x)
        } else {
            rest
        }
    }
}

/// The symbols listed as many times in all as there are lists: with one list per
/// enabled exchange, each of which lists a symbol once, the symbols that every
/// enabled exchange trades.
pub open spec fn common_symbols(lists: Seq<Seq<Seq<char>>>) -> Seq<Seq<char>> {
    listed_n_times(all_listed(lists), all_listed(lists), lists.len())
}

/// The views of a sequence of string lists.
pub open spec fn lists_view(lists: Seq<Vec<String>>) -> Seq<Seq<Seq<char>>> {
    lists.map_values(|l: Vec<String>| strings_view(l@))
}

/// How often `x` occurs in `all`.
fn count_occurrences(all: &Vec<String>, x: &String) -> (res: usize)
    ensures
        res == occurrences(strings_view(all@), x@),
{
    let ghost v = strings_view(all@);
    let mut count: usize = 0;
    let mut i: usize = 0;
    while i < all.len()
        invariant
            0 <= i <= all.len(),
            v == strings_view(all@),
            count == occurrences(v.take(i as int), x@),
            count <= i,
        decreases all.len() - i,
    {
        assert(v.take(i + 1).drop_last() =~= v.take(i as int));
        if all[i].eq(x) {
            count = count + 1;
        }
        i = i + 1;
    }
    assert(v.take(all.len() as int) =~= v);
    count
}

/// `all[i]` occurs before index `i`.
fn occurs_before(all: &Vec<String>, i: usize) -> (res: bool)
    requires
        i < all.len(),
    ensures
        res == strings_view(all@).take(i as int).contains(all@[i as int]@),
{
    let ghost v = strings_view(all@);
    let mut j: usize = 0;
    while j < i
        invariant
            0 <= j <= i < all.len(),
            v == strings_view(all@),
            forall|k: int| 0 <= k < j ==> v[k] != all@[i as int]@,
        decreases i - j,
    {
        if all[j].eq(&all[i]) {
            assert(v.take(i as int)[j as int] == all@[i as int]@);
            return true;
        }
        j = j + 1;
    }
    false
}

/// The symbols listed as many times in all as there are lists, in the order in which
/// they first occur.
pub fn symbols_on_every_exchange(lists: &Vec<Vec<String>>) -> (res: Vec<String>)
    ensures
        strings_view(res@) == common_symbols(lists_view(lists@)),
{
    let ghost views = lists_view(lists@);
    let mut all: Vec<String> = Vec::new();
    let mut i: usize = 0;
    while i < lists.len()
        invariant
            0 <= i <= lists.len(),
            views == lists_view(lists@),
            strings_view(all@) == all_listed(views.take(i as int)),
        decreases lists.len() - i,
    {
        let list = &lists[i];
        let ghost before = strings_view(all@);
        let mut j: usize = 0;
        while j < list.len()
            invariant
                0 <= j <= list.len(),
                strings_view(all@) == before + strings_view(list@).take(j as int),
            decreases list.len() - j,
        {
            let ghost prev = strings_view(all@);
            all.push(list[j].clone());
            assert(strings_view(all@) =~= prev.push(list@[j as int]@));
            assert(strings_view(list@).take(j + 1) =~= strings_view(list@).take(j as int).push(list@[j as int]@));
            j = j + 1;
            assert(strings_view(all@) =~= before + strings_view(list@).take(j as int));
        }
        assert(views.take(i + 1).drop_last() =~= views.take(i as int));
        assert(views.take(i + 1).last() == strings_view(list@));
        assert(strings_view(list@).take(list.len() as int) =~= strings_view(list@));
        i = i + 1;
    }
    assert(views.take(lists.len() as int) =~= views);
    let ghost flat = strings_view(all@);
    let n = lists.len();
    let mut result: Vec<String> = Vec::new();
    let mut k: usize = 0;
    while k < all.len()
        invariant
            0 <= k <= all.len(),
            flat == strings_view(all@),
            n == views.len(),
            strings_view(result@) == listed_n_times(flat.take(k as int), flat, n as nat),
        decreases all.len() - k,
    {
        let ghost prefix = flat.take(k + 1);
        assert(prefix.drop_last() =~= flat.take(k as int));
        assert(prefix.last() == all@[k as int]@);
        if !occurs_before(&all, k) && count_occurrences(&all, &all[k]) == n {
            let ghost before = strings_view(result@);
            result.push(all[k].clone());
            assert(strings_view(result@) =~= before.push(all@[k as int]@));
        }
        k = k + 1;
    }
    assert(flat.take(all.len() as int) =~= flat);
    result
}

// ---------------------------------------------------------------------------
// Laws of the common symbols

proof fn lemma_occurrences_concat(a: Seq<Seq<char>>, b: Seq<Seq<char>>, x: Seq<char>)
    ensures
        occurrences(a + b, x) == occurrences(a, x) + occurrences(b, x),
    decreases b.len(),
{
    if b.len() > 0 {
        lemma_occurrences_concat(a, b.drop_last(), x);
        assert((a + b).drop_last() =~= a + b.drop_last());
    } else {
        assert(a + b =~= a);
    }
}

proof fn lemma_occurrences_contains(s: Seq<Seq<char>>, x: Seq<char>)
    ensures
        occurrences(s, x) > 0 <==> s.contains(x),
        s.no_duplicates() ==> occurrences(s, x) <= 1,
    decreases s.len(),
{
    if s.len() > 0 {
        let init = s.drop_last();
        lemma_occurrences_contains(init, x);
        if init.contains(x) {
            let k = choose|k: int| 0 <= k < init.len() && init[k] == x;
            assert(s[k] == x);
        }
        if s.contains(x) && s.last() != x {
            let k = choose|k: int| 0 <= k < s.len() && s[k] == x;
            assert(init[k] == x);
        }
        if s.no_duplicates() {
            assert(init.no_duplicates());
            if s.last() == x && init.contains(x) {
                let k = choose|k: int| 0 <= k < init.len() && init[k] == x;
                assert(s[k] == s[s.len() - 1]);
            }
        }
    }
}

proof fn lemma_listed_n_times(prefix: Seq<Seq<char>>, all: Seq<Seq<char>>, n: nat, x: Seq<char>)
    ensures
        listed_n_times(prefix, all, n).contains(x) <==> (prefix.contains(x) && occurrences(all, x) == n),
        listed_n_times(prefix, all, n).no_duplicates(),
        forall|y: Seq<char>| #[trigger] listed_n_times(prefix, all, n).contains(y) ==> prefix.contains(y),
    decreases prefix.len(),
{
    if prefix.len() > 0 {
        let init = prefix.drop_last();
        let rest = listed_n_times(init, all, n);
        lemma_listed_n_times(init, all, n, x);
        lemma_listed_n_times(init, all, n, prefix.last());
        let r = listed_n_times(prefix, all, n);
        if init.contains(x) {
            let k = choose|k: int| 0 <= k < init.len() && init[k] == x;
            assert(prefix[k] == x);
        }
        if prefix.contains(x) && prefix.last() != x {
            let k = choose|k: int| 0 <= k < prefix.len() && prefix[k] == x;
            assert(init[k] == x);
        }
        assert forall|y: Seq<char>| #[trigger] r.contains(y) implies prefix.contains(y) by {
            lemma_listed_n_times(init, all, n, y);
            if rest.contains(y) {
                let k = choose|k: int| 0 <= k < init.len() && init[k] == y;
                assert(prefix[k] == y);
            } else {
                assert(y == prefix.last());
                assert(prefix[prefix.len() - 1] == y);
            }
        }
        if !init.contains(prefix.last()) && occurrences(all, prefix.last()) == n {
            assert(r == rest.push(prefix.last()));
            assert(r[r.len() - 1] == prefix.last());
            if rest.contains(x) {
                let k = choose|k: int| 0 <= k < rest.len() && rest[k] == x;
                assert(r[k] == x);
            }
            if r.contains(x) && x != prefix.last() {
                let k = choose|k: int| 0 <= k < r.len() && r[k] == x;
                assert(rest[k] == x);
            }
            assert(!rest.contains(prefix.last()));
            assert forall|i: int, j: int| 0 <= i < r.len() && 0 <= j < r.len() && i != j implies r[i] != r[j] by {
                if j == r.len() - 1 {
                    assert(rest.contains(r[i]));
                } else if i == r.len() - 1 {
                    assert(rest.contains(r[j]));
                }
            }
        }
    }
}

/// The common symbols list each symbol once.
pub proof fn law_common_symbols_distinct(lists: Seq<Seq<Seq<char>>>)
    ensures
        common_symbols(lists).no_duplicates(),
{
    lemma_listed_n_times(all_listed(lists), all_listed(lists), lists.len(), Seq::empty());
}

/// A symbol is common when it is listed, in all, as many times as there are lists.
pub proof fn law_common_symbols_counted(lists: Seq<Seq<Seq<char>>>, x: Seq<char>)
    ensures
        common_symbols(lists).contains(x) <==> (all_listed(lists).contains(x) && occurrences(
            all_listed(lists),
            x,
        ) == lists.len()),
{
    lemma_listed_n_times(all_listed(lists), all_listed(lists), lists.len(), x);
}

proof fn lemma_occurrences_in_lists(lists: Seq<Seq<Seq<char>>>, x: Seq<char>)
    requires
        forall|i: int| 0 <= i < lists.len() ==> (#[trigger] lists[i]).no_duplicates(),
    ensures
        occurrences(all_listed(lists), x) <= lists.len(),
        occurrences(all_listed(lists), x) == lists.len() <==> forall|i: int|
            0 <= i < lists.len() ==> (#[trigger] lists[i]).contains(x),
    decreases lists.len(),
{
    if lists.len() > 0 {
        let init = lists.drop_last();
        assert forall|i: int| 0 <= i < init.len() implies (#[trigger] init[i]).no_duplicates() by {
            assert(init[i] == lists[i]);
        }
        lemma_occurrences_in_lists(init, x);
        lemma_occurrences_concat(all_listed(init), lists.last(), x);
        assert(lists[lists.len() - 1] == lists.last());
        lemma_occurrences_contains(lists.last(), x);
        if forall|i: int| 0 <= i < lists.len() ==> (#[trigger] lists[i]).contains(x) {
            assert forall|i: int| 0 <= i < init.len() implies (#[trigger] init[i]).contains(x) by {
                assert(init[i] == lists[i]);
            }
        }
        if occurrences(all_listed(lists), x) == lists.len() {
            assert forall|i: int| 0 <= i < lists.len() implies (#[trigger] lists[i]).contains(x) by {
                if i < init.len() {
                    assert(init[i] == lists[i]);
                }
            }
        }
    }
}

/// Where no exchange lists a symbol twice, the common symbols are exactly the
/// symbols that every list holds: those that every enabled exchange trades.
pub proof fn law_common_symbols_traded_everywhere(lists: Seq<Seq<Seq<char>>>, x: Seq<char>)
    requires
        lists.len() > 0,
        forall|i: int| 0 <= i < lists.len() ==> (#[trigger] lists[i]).no_duplicates(),
    ensures
        common_symbols(lists).contains(x) <==> forall|i: int|
            0 <= i < lists.len() ==> (#[trigger] lists[i]).contains(x),
{
    law_common_symbols_counted(lists, x);
    lemma_occurrences_in_lists(lists, x);
    lemma_occurrences_contains(all_listed(lists), x);
}

} // verus!
