//! The command lines that run the simulator tools: `iverilog`, which
//! compiles the design, and `vvp`, which runs the compiled simulation.
use vstd::prelude::*;
use crate::text::{chars_of, split_chars, split_on, string_of};

verus! {

/// A program to run and its arguments.
pub struct Invocation {
    pub program: String,
    pub args: Vec<String>,
}

/// The views of a sequence of strings.
pub open spec fn strings_view(s: Seq<String>) -> Seq<Seq<char>> {
    s.map_values(|x: String| x@)
}

/// The words of the arguments: each argument split at every space.
pub open spec fn split_args(args: Seq<Seq<char>>) -> Seq<Seq<char>>
    decreases args.len(),
{
    if args.len() == 0 {
        Seq::empty()
    } else {
        split_args(args.drop_last()) + split_on(args.last(), ' ')
    }
}

/// The texts of `s` that are not empty, in order.
pub open spec fn non_empty(s: Seq<Seq<char>>) -> Seq<Seq<char>>
    decreases s.len(),
{
    if s.len() == 0 {
        Seq::empty()
    } else if s.last().len() == 0 {
        non_empty(s.drop_last())
    } else {
        non_empty(s.drop_last()).push(s.last())
    }
}

/// The texts of `s` that are there, in order.
pub open spec fn present(s: Seq<Option<Seq<char>>>) -> Seq<Seq<char>>
    decreases s.len(),
{
    if s.len() == 0 {
        Seq::empty()
    } else {
        match s.last() {
            Some(x) => present(s.drop_last()).push(x),
            None => present(s.drop_last()),
        }
    }
}

/// The views of a sequence of optional strings.
pub open spec fn options_view(s: Seq<Option<String>>) -> Seq<Option<Seq<char>>> {
    s.map_values(|x: Option<String>| match x {
        Some(t) => Some(t@),
        None => None,
    })
}

/// The text of an optional string, or `default`.
pub open spec fn text_or(s: Option<String>, default: Seq<char>) -> Seq<char> {
    match s {
        Some(t) => t@,
        None => default,
    }
}

/// The directory of the tools, empty where it is not given.
pub open spec fn tool_dir(path: Option<String>) -> Seq<char> {
    text_or(path, Seq::empty())
}

/// The program `name` in directory `dir`, as `Path::join` forms it: a
/// separator `/` goes between a directory that does not end in one and the
/// name; an empty directory leaves the name alone.
pub open spec fn in_dir(dir: Seq<char>, name: Seq<char>) -> Seq<char> {
    if dir.len() == 0 || dir.last() == '/' {
        dir + name
    } else {
        dir.push('/') + name
    }
}

/// The word `iverilog`.
pub open spec fn iverilog_word() -> Seq<char> {
    seq!['i', 'v', 'e', 'r', 'i', 'l', 'o', 'g']
}

/// The word `vvp`.
pub open spec fn vvp_word() -> Seq<char> {
    seq!['v', 'v', 'p']
}

/// The word `-o`.
pub open spec fn out_flag() -> Seq<char> {
    seq!['-', 'o']
}

/// The output file that is used where the given one has no text form.
pub open spec fn default_ivl_out() -> Seq<char> {
    seq!['a', '.', 'v', 'p', 'p']
}

/// The compiled simulation that is used where the given one has no text form.
pub open spec fn default_vvp_file() -> Seq<char> {
    seq!['a', '.', 'o', 'u', 't']
}

/// Appends the characters of `s` to `v`.
fn push_all(v: &mut Vec<char>, s: &[char])
    ensures
        final(v)@ == old(v)@ + s@,
{
    let mut i: usize = 0;
    while i < s.len()
        invariant
            i <= s.len(),
            v@ == old(v)@ + s@.take(i as int),
        decreases s.len() - i,
    {
        v.push(s[i]);
        i = i + 1;
        assert(s@.take(i as int) == s@.take(i - 1).push(s@[i - 1]));
    }
    assert(s@.take(s.len() as int) == s@);
}

/// Appends a separator `/` to a directory that is not empty and does not end
/// in one.
fn end_with_separator(dir: &mut Vec<char>)
    ensures
        forall|name: Seq<char>| #[trigger] in_dir(old(dir)@, name) == final(dir)@ + name,
{
    if dir.len() > 0 && dir[dir.len() - 1] != '/' {
        dir.push('/');
    }
}

/// The string of the characters `v`.
fn text_to_string(v: &Vec<char>) -> (s: String)
    ensures
        s@ == v@,
{
    string_of(v.as_slice())
}

/// Appends the words of `arg` to `out`.
fn push_words(out: &mut Vec<String>, arg: &String)
    ensures
        strings_view(final(out)@) == strings_view(old(out)@) + split_on(arg@, ' '),
{
    let cs = chars_of(arg.as_str());
    let words = split_chars(cs.as_slice(), ' ');
    let ghost start = strings_view(out@);
    let mut i: usize = 0;
    while i < words.len()
        invariant
            i <= words@.len(),
            words@.len() == split_on(arg@, ' ').len(),
            forall|j: int| 0 <= j < words@.len() ==> #[trigger] words@[j]@ == split_on(arg@, ' ')[j],
            strings_view(out@) == start + split_on(arg@, ' ').take(i as int),
        decreases words.len() - i,
    {
        let ghost prev = strings_view(out@);
        let w = text_to_string(&words[i]);
        out.push(w);
        assert(strings_view(out@) =~= prev.push(w@));
        i = i + 1;
        assert(split_on(arg@, ' ').take(i as int) == split_on(arg@, ' ').take(i - 1).push(
            split_on(arg@, ' ')[i - 1],
        ));
    }
    assert(split_on(arg@, ' ').take(words@.len() as int) == split_on(arg@, ' '));
}

/// The words of all the arguments.
fn words_of(args: &Vec<String>) -> (out: Vec<String>)
    ensures
        strings_view(out@) == split_args(strings_view(args@)),
{
    let mut out: Vec<String> = Vec::new();
    let mut i: usize = 0;
    while i < args.len()
        invariant
            i <= args@.len(),
            strings_view(out@) == split_args(strings_view(args@).take(i as int)),
        decreases args.len() - i,
    {
        push_words(&mut out, &args[i]);
        i = i + 1;
        assert(strings_view(args@).take(i as int).drop_last() == strings_view(args@).take(i - 1));
    }
    assert(strings_view(args@).take(args@.len() as int) == strings_view(args@));
    out
}

/// The strings of `s` that are not empty.
fn drop_empty(s: Vec<String>) -> (out: Vec<String>)
    ensures
        strings_view(out@) == non_empty(strings_view(s@)),
{
    let mut out: Vec<String> = Vec::new();
    let mut i: usize = 0;
    while i < s.len()
        invariant
            i <= s@.len(),
            strings_view(out@) == non_empty(strings_view(s@).take(i as int)),
        decreases s.len() - i,
    {
        let t = s[i].as_str();
        assert(strings_view(s@).take(i + 1).drop_last() == strings_view(s@).take(i as int));
        if !t.is_empty() {
            out.push(t.to_owned());
        }
        i = i + 1;
    }
    assert(strings_view(s@).take(s@.len() as int) == strings_view(s@));
    out
}

/// The text of `s`, or `default`.
fn chars_or(s: &Option<String>, default: Vec<char>) -> (v: Vec<char>)
    ensures
        v@ == text_or(*s, default@),
{
    match s {
        Some(t) => chars_of(t.as_str()),
        None => default,
    }
}

/// What `iverilog` is run with: the program `iverilog` (with `suffix`) in
/// the tools' directory, joined as a path; the words of the given arguments, `-o` and the
/// output file, then the design files that have a text form; empty words
/// left out.
pub open spec fn ivl_spec(
    files: Seq<Option<Seq<char>>>,
    out: Seq<char>,
    args: Seq<Seq<char>>,
    dir: Seq<char>,
    suffix: Seq<char>,
) -> (Seq<char>, Seq<Seq<char>>) {
    (
        in_dir(dir, iverilog_word() + suffix),
        non_empty(split_args(args) + seq![out_flag(), out] + present(files)),
    )
}

/// What `vvp` is run with: the program `vvp` in the tools' directory,
/// joined as a path; the
/// words of the given arguments, the compiled simulation, then the extended
/// arguments as they are; empty words left out.
pub open spec fn vvp_spec(
    dir: Seq<char>,
    file: Seq<char>,
    args: Seq<Seq<char>>,
    ext_args: Seq<Seq<char>>,
) -> (Seq<char>, Seq<Seq<char>>) {
    (in_dir(dir, vvp_word()), non_empty(split_args(args) + seq![file] + ext_args))
}

/// The command line that compiles the design `files` into `out` with
/// `iverilog`. A path without a text form is `None`: a missing tools'
/// directory is empty, a missing output file is `a.vpp`, and a missing
/// design file is left out.
pub fn ivl_invocation(
    files: &Vec<Option<String>>,
    out: &Option<String>,
    args: &Vec<String>,
    path: &Option<String>,
    suffix: &str,
) -> (inv: Invocation)
    ensures
        (inv.program@, strings_view(inv.args@)) == ivl_spec(
            options_view(files@),
            text_or(*out, default_ivl_out()),
            strings_view(args@),
            tool_dir(*path),
            suffix@,
        ),
{
    let mut prog = chars_or(path, Vec::new());
    end_with_separator(&mut prog);
    push_all(&mut prog, vec!['i', 'v', 'e', 'r', 'i', 'l', 'o', 'g'].as_slice());
    let sc = chars_of(suffix);
    push_all(&mut prog, sc.as_slice());
    assert(prog@ == in_dir(tool_dir(*path), iverilog_word() + suffix@));
    let mut all = words_of(args);
    let ghost words = strings_view(all@);
    let flag = text_to_string(&vec!['-', 'o']);
    all.push(flag);
    assert(strings_view(all@) =~= words.push(flag@));
    let oc = chars_or(out, vec!['a', '.', 'v', 'p', 'p']);
    let ot = text_to_string(&oc);
    all.push(ot);
    assert(strings_view(all@) =~= words.push(flag@).push(ot@));
    assert(strings_view(all@) == words + seq![out_flag(), text_or(*out, default_ivl_out())]);
    let ghost before = strings_view(all@);
    let ghost fv = options_view(files@);
    let mut i: usize = 0;
    assert(fv.take(0) == Seq::<Option<Seq<char>>>::empty());
    while i < files.len()
        invariant
            i <= files@.len(),
            fv == options_view(files@),
            strings_view(all@) == before + present(fv.take(i as int)),
        decreases files.len() - i,
    {
        assert(fv.take(i + 1).drop_last() == fv.take(i as int));
        let ghost prev = strings_view(all@);
        match &files[i] {
            Some(f) => {
                let t = f.as_str().to_owned();
                all.push(t);
                assert(strings_view(all@) =~= prev.push(t@));
            },
            None => {},
        }
        i = i + 1;
    }
    assert(fv.take(files@.len() as int) == fv);
    let kept = drop_empty(all);
    Invocation { program: text_to_string(&prog), args: kept }
}

/// The command line that runs the compiled simulation `file` with `vvp`. A
/// path without a text form is `None`: a missing tools' directory is empty
/// and a missing simulation file is `a.out`.
pub fn vvp_invocation(
    path: &Option<String>,
    file: &Option<String>,
    args: &Vec<String>,
    ext_args: &Vec<String>,
) -> (inv: Invocation)
    ensures
        (inv.program@, strings_view(inv.args@)) == vvp_spec(
            tool_dir(*path),
            text_or(*file, default_vvp_file()),
            strings_view(args@),
            strings_view(ext_args@),
        ),
{
    let mut prog = chars_or(path, Vec::new());
    end_with_separator(&mut prog);
    push_all(&mut prog, vec!['v', 'v', 'p'].as_slice());
    assert(prog@ == in_dir(tool_dir(*path), vvp_word()));
    let mut all = words_of(args);
    let ghost words = strings_view(all@);
    let fc = chars_or(file, vec!['a', '.', 'o', 'u', 't']);
    let ft = text_to_string(&fc);
    all.push(ft);
    assert(strings_view(all@) =~= words.push(ft@));
    let ghost before = strings_view(all@);
    let mut i: usize = 0;
    while i < ext_args.len()
        invariant
            i <= ext_args@.len(),
            strings_view(all@) == before + strings_view(ext_args@).take(i as int),
        decreases ext_args.len() - i,
    {
        let ghost prev = strings_view(all@);
        let t = ext_args[i].as_str().to_owned();
        all.push(t);
        assert(strings_view(all@) =~= prev.push(t@));
        i = i + 1;
        assert(strings_view(ext_args@).take(i as int) == strings_view(ext_args@).take(i - 1).push(
            ext_args@[i - 1]@,
        ));
    }
    assert(strings_view(ext_args@).take(ext_args@.len() as int) == strings_view(ext_args@));
    assert(strings_view(all@) == split_args(strings_view(args@)) + seq![
        text_or(*file, default_vvp_file()),
    ] + strings_view(ext_args@));
    let kept = drop_empty(all);
    Invocation { program: text_to_string(&prog), args: kept }
}


/// No argument is empty: every empty word is left out, and the others stay
/// in order.
pub proof fn lemma_non_empty(s: Seq<Seq<char>>)
    ensures
        forall|i: int| 0 <= i < non_empty(s).len() ==> (#[trigger] non_empty(s)[i]).len() > 0,
        non_empty(s).len() <= s.len(),
    decreases s.len(),
{
    if s.len() > 0 {
        lemma_non_empty(s.drop_last());
    }
}


/// The words of several arguments are the words of each, in order.
pub proof fn lemma_split_args_concat(a: Seq<Seq<char>>, b: Seq<Seq<char>>)
    ensures
        split_args(a + b) == split_args(a) + split_args(b),
    decreases b.len(),
{
    if b.len() == 0 {
        assert(a + b == a);
        assert(split_args(a) + Seq::<Seq<char>>::empty() == split_args(a));
    } else {
        lemma_split_args_concat(a, b.drop_last());
        assert((a + b).drop_last() == a + b.drop_last());
        assert((a + b).last() == b.last());
    }
}

/// The words of one argument are its space-separated pieces.
pub proof fn lemma_split_args_one(x: Seq<char>)
    ensures
        split_args(seq![x]) == split_on(x, ' '),
{
    let e = Seq::<Seq<char>>::empty();
    assert(seq![x].drop_last() == e);
    assert(seq![x].last() == x);
    assert(split_args(e) == e);
    assert(split_args(seq![x]) == split_args(e) + split_on(x, ' '));
    assert(e + split_on(x, ' ') == split_on(x, ' '));
}

/// Leaving out empty texts distributes over concatenation.
pub proof fn lemma_non_empty_concat(a: Seq<Seq<char>>, b: Seq<Seq<char>>)
    ensures
        non_empty(a + b) == non_empty(a) + non_empty(b),
    decreases b.len(),
{
    if b.len() == 0 {
        assert(a + b == a);
        assert(non_empty(a) + Seq::<Seq<char>>::empty() == non_empty(a));
    } else {
        lemma_non_empty_concat(a, b.drop_last());
        assert((a + b).drop_last() == a + b.drop_last());
        assert((a + b).last() == b.last());
    }
}

/// Every given argument counts for `iverilog`: its arguments are the words of
/// the given arguments, then `-o` and the output file, then the design files;
/// and giving one more argument `x` adds the words of `x`, and only those,
/// before `-o`.
pub proof fn lemma_ivl_args(
    files: Seq<Option<Seq<char>>>,
    out: Seq<char>,
    args: Seq<Seq<char>>,
    x: Seq<char>,
    dir: Seq<char>,
    suffix: Seq<char>,
)
    ensures
        ivl_spec(files, out, args, dir, suffix).1 == non_empty(split_args(args)) + non_empty(
            seq![out_flag(), out] + present(files),
        ),
        ivl_spec(files, out, args.push(x), dir, suffix).1 == non_empty(split_args(args))
            + non_empty(split_on(x, ' ')) + non_empty(seq![out_flag(), out] + present(files)),
{
    let tail = seq![out_flag(), out] + present(files);
    lemma_non_empty_concat(split_args(args), tail);
    assert(split_args(args) + seq![out_flag(), out] + present(files) == split_args(args) + tail);
    lemma_split_args_concat(args, seq![x]);
    lemma_split_args_one(x);
    assert(args + seq![x] == args.push(x));
    let w = split_args(args.push(x));
    assert(w + seq![out_flag(), out] + present(files) == w + tail);
    lemma_non_empty_concat(w, tail);
    lemma_non_empty_concat(split_args(args), split_on(x, ' '));
}

/// Every given argument counts for `vvp`: its arguments are the words of the
/// given arguments, then the simulation file, then the extended arguments;
/// and giving one more argument `x` adds the words of `x`, and only those,
/// before the file.
pub proof fn lemma_vvp_args(
    dir: Seq<char>,
    file: Seq<char>,
    args: Seq<Seq<char>>,
    x: Seq<char>,
    ext_args: Seq<Seq<char>>,
)
    ensures
        vvp_spec(dir, file, args, ext_args).1 == non_empty(split_args(args)) + non_empty(
            seq![file] + ext_args,
        ),
        vvp_spec(dir, file, args.push(x), ext_args).1 == non_empty(split_args(args)) + non_empty(
            split_on(x, ' '),
        ) + non_empty(seq![file] + ext_args),
{
    let tail = seq![file] + ext_args;
    lemma_non_empty_concat(split_args(args), tail);
    assert(split_args(args) + seq![file] + ext_args == split_args(args) + tail);
    lemma_split_args_concat(args, seq![x]);
    lemma_split_args_one(x);
    assert(args + seq![x] == args.push(x));
    let w = split_args(args.push(x));
    assert(w + seq![file] + ext_args == w + tail);
    lemma_non_empty_concat(w, tail);
    lemma_non_empty_concat(split_args(args), split_on(x, ' '));
}

} // verus!
