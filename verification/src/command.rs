//! Command lines: what is handed to the programs that do the work.
use vstd::prelude::*;

verus! {

/// One argument of a command. The paths are the caller's own: nothing here looks into them.
#[derive(Debug, PartialEq, Eq)]
pub enum CommandArg<P> {
    Text(String),
    Path(P),
}

/// What a `CommandArg` is.
pub enum ArgView<P> {
    Text(Seq<char>),
    Path(P),
}

impl<P> View for CommandArg<P> {
    type V = ArgView<P>;

    open spec fn view(&self) -> ArgView<P> {
        match *self {
            CommandArg::Text(s) => ArgView::Text(s@),
            CommandArg::Path(p) => ArgView::Path(p),
        }
    }
}

/// Tells whether an argument is the given text.
pub open spec fn is_text<P>(arg: CommandArg<P>, s: Seq<char>) -> bool {
    arg matches CommandArg::Text(t) && t@ == s
}

/// Literal arguments.
pub open spec fn literals<P>(texts: Seq<&str>) -> Seq<ArgView<P>> {
    Seq::new(texts.len(), |i: int| ArgView::Text(texts[i]@))
}

/// Arguments that were given as text.
pub open spec fn texts<P>(texts: Seq<String>) -> Seq<ArgView<P>> {
    Seq::new(texts.len(), |i: int| ArgView::Text(texts[i]@))
}

/// Arguments with `path` in the place of every path.
pub open spec fn with_path<P>(args: Seq<ArgView<()>>, path: P) -> Seq<ArgView<P>> {
    Seq::new(
        args.len(),
        |i: int|
            match args[i] {
                ArgView::Text(s) => ArgView::Text(s),
                ArgView::Path(_) => ArgView::Path(path),
            },
    )
}

/// Fixed texts are arguments one by one: none is left out, and none is changed.
pub proof fn law_literals_are_all_there<P>(words: Seq<&str>, i: int)
    requires
        0 <= i < words.len(),
    ensures
        literals::<P>(words).len() == words.len(),
        literals::<P>(words)[i] == ArgView::<P>::Text(words[i]@),
{
}

/// Given texts are arguments one by one: none is left out, and none is changed.
pub proof fn law_texts_are_all_there<P>(words: Seq<String>, i: int)
    requires
        0 <= i < words.len(),
    ensures
        texts::<P>(words).len() == words.len(),
        texts::<P>(words)[i] == ArgView::<P>::Text(words[i]@),
{
}

/// Putting a path in leaves every text where it is.
pub proof fn law_texts_stay_around_a_path<P>(args: Seq<ArgView<()>>, path: P, i: int)
    requires
        0 <= i < args.len(),
    ensures
        with_path(args, path).len() == args.len(),
        args[i] matches ArgView::Text(s) ==> with_path(args, path)[i] == ArgView::<P>::Text(s),
        args[i] is Path ==> with_path(args, path)[i] == ArgView::Path(path),
{
}

/// What a command line shows is all of its arguments, in their order.
pub proof fn law_every_argument_is_shown<P>(line: CommandLine<P>, i: int)
    requires
        0 <= i < line.args.len(),
    ensures
        line@.len() == line.args.len(),
        line.args@[i] matches CommandArg::Text(s) ==> line@[i] == ArgView::<P>::Text(s@),
        line.args@[i] matches CommandArg::Path(p) ==> line@[i] == ArgView::<P>::Path(p),
{
}

/// A list of arguments that grows from the front to the back.
pub struct CommandLine<P> {
    pub args: Vec<CommandArg<P>>,
}

impl<P> View for CommandLine<P> {
    type V = Seq<ArgView<P>>;

    open spec fn view(&self) -> Seq<ArgView<P>> {
        Seq::new(self.args@.len(), |i: int| self.args@[i]@)
    }
}

impl<P> CommandLine<P> {
    /// No arguments.
    pub fn new() -> (r: Self)
        ensures
            r@ == Seq::<ArgView<P>>::empty(),
    {
        let r = CommandLine { args: Vec::new() };
        assert(r@ =~= Seq::<ArgView<P>>::empty());
        r
    }

    /// Adds one text.
    pub fn text(&mut self, s: &str)
        ensures
            final(self)@ == old(self)@.push(ArgView::Text(s@)),
            final(self).args@.len() == old(self).args@.len() + 1,
            final(self).args@.drop_last() == old(self).args@,
            final(self).args@.last() matches CommandArg::Text(t) && t@ == s@,
    {
        self.args.push(CommandArg::Text(s.to_owned()));
        assert(self.args@.drop_last() =~= old(self).args@);
        assert(self@ =~= old(self)@.push(ArgView::Text(s@)));
    }

    /// Adds one path.
    pub fn path(&mut self, p: P)
        ensures
            final(self)@ == old(self)@.push(ArgView::Path(p)),
            final(self).args@ == old(self).args@.push(CommandArg::Path(p)),
    {
        self.args.push(CommandArg::Path(p));
        assert(self@ =~= old(self)@.push(ArgView::Path(p)));
    }

    /// Adds fixed texts.
    pub fn literals(&mut self, s: &[&str])
        ensures
            final(self)@ == old(self)@ + literals::<P>(s@),
            final(self).args@.len() == old(self).args@.len() + s.len(),
            final(self).args@.take(old(self).args@.len() as int) == old(self).args@,
            forall|k: int|
                old(self).args@.len() <= k < final(self).args@.len() ==> is_text(
                    #[trigger] final(self).args@[k],
                    s@[k - old(self).args@.len()]@,
                ),
    {
        let ghost before = self@;
        let ghost given = self.args@;
        let mut i: usize = 0;
        assert(self@ =~= before + literals::<P>(s@.take(0)));
        assert(self.args@.take(given.len() as int) =~= given);
        while i < s.len()
            invariant
                i <= s.len(),
                self@ == before + literals::<P>(s@.take(i as int)),
                self.args@.len() == given.len() + i,
                self.args@.take(given.len() as int) == given,
                forall|k: int|
                    given.len() <= k < self.args@.len() ==> is_text(
                        #[trigger] self.args@[k],
                        s@[k - given.len()]@,
                    ),
            decreases s.len() - i,
        {
            let ghost so_far = self.args@;
            self.text(s[i]);
            proof {
                assert(self@ =~= before + literals::<P>(s@.take(i + 1)));
                assert(self.args@.take(given.len() as int) =~= so_far.take(given.len() as int)) by {
                    assert forall|k: int| 0 <= k < so_far.len() implies self.args@[k] == so_far[k] by {
                        assert(self.args@.drop_last()[k] == so_far[k]);
                    }
                }
                assert forall|k: int| given.len() <= k < self.args@.len() implies is_text(
                    #[trigger] self.args@[k],
                    s@[k - given.len()]@,
                ) by {
                    if k < so_far.len() {
                        assert(self.args@.drop_last()[k] == so_far[k]);
                    }
                }
            }
            i = i + 1;
        }
        assert(s@.take(i as int) =~= s@);
    }

    /// Adds given texts.
    pub fn texts(&mut self, s: &[String])
        ensures
            final(self)@ == old(self)@ + texts::<P>(s@),
            final(self).args@.len() == old(self).args@.len() + s.len(),
            final(self).args@.take(old(self).args@.len() as int) == old(self).args@,
            forall|k: int|
                old(self).args@.len() <= k < final(self).args@.len() ==> is_text(
                    #[trigger] final(self).args@[k],
                    s@[k - old(self).args@.len()]@,
                ),
    {
        let ghost before = self@;
        let ghost given = self.args@;
        let mut i: usize = 0;
        assert(self@ =~= before + texts::<P>(s@.take(0)));
        assert(self.args@.take(given.len() as int) =~= given);
        while i < s.len()
            invariant
                i <= s.len(),
                self@ == before + texts::<P>(s@.take(i as int)),
                self.args@.len() == given.len() + i,
                self.args@.take(given.len() as int) == given,
                forall|k: int|
                    given.len() <= k < self.args@.len() ==> is_text(
                        #[trigger] self.args@[k],
                        s@[k - given.len()]@,
                    ),
            decreases s.len() - i,
        {
            let ghost so_far = self.args@;
            self.text(s[i].as_str());
            proof {
                assert(self@ =~= before + texts::<P>(s@.take(i + 1)));
                assert(self.args@.take(given.len() as int) =~= so_far.take(given.len() as int)) by {
                    assert forall|k: int| 0 <= k < so_far.len() implies self.args@[k] == so_far[k] by {
                        assert(self.args@.drop_last()[k] == so_far[k]);
                    }
                }
                assert forall|k: int| given.len() <= k < self.args@.len() implies is_text(
                    #[trigger] self.args@[k],
                    s@[k - given.len()]@,
                ) by {
                    if k < so_far.len() {
                        assert(self.args@.drop_last()[k] == so_far[k]);
                    }
                }
            }
            i = i + 1;
        }
        assert(s@.take(i as int) =~= s@);
    }
}

} // verus!
