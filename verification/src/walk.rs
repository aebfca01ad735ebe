use vstd::prelude::*;

verus! {

/// A path met during the walk, and whether it names a directory.
pub struct Entry {
    pub path: String,
    pub is_dir: bool,
}

pub struct EntryView {
    pub path: Seq<char>,
    pub is_dir: bool,
}

impl View for Entry {
    type V = EntryView;

    open spec fn view(&self) -> EntryView {
        EntryView { path: self.path@, is_dir: self.is_dir }
    }
}

/// What the walk reports: a path that is not a directory, or a directory
/// together with the index of the category it was put in.
pub enum WalkMessage {
    MiscFile(String),
    CategorizedDir(usize, String),
}

pub enum MessageView {
    MiscFile(Seq<char>),
    CategorizedDir(nat, Seq<char>),
}

impl View for WalkMessage {
    type V = MessageView;

    open spec fn view(&self) -> MessageView {
        match self {
            WalkMessage::MiscFile(p) => MessageView::MiscFile(p@),
            WalkMessage::CategorizedDir(c, p) => MessageView::CategorizedDir(*c as nat, p@),
        }
    }
}

/// The outside work that the walk waits for next.
pub enum Action {
    /// Run the detection command of category `.1` in the directory `.0`,
    /// and report with `Walker::on_detect` whether it succeeded.
    Detect(String, usize),
    /// List the directory, and hand its entries to `Walker::on_listed`.
    List(String),
    /// The walk is over.
    Finished,
}

pub enum ActionView {
    Detect(Seq<char>, nat),
    List(Seq<char>),
    Finished,
}

impl View for Action {
    type V = ActionView;

    open spec fn view(&self) -> ActionView {
        match self {
            Action::Detect(p, i) => ActionView::Detect(p@, *i as nat),
            Action::List(p) => ActionView::List(p@),
            Action::Finished => ActionView::Finished,
        }
    }
}

enum Pending {
    Idle,
    Detecting(String, usize),
    Listing(String),
}

pub enum PendingView {
    Idle,
    Detecting(Seq<char>, nat),
    Listing(Seq<char>),
}

impl View for Pending {
    type V = PendingView;

    closed spec fn view(&self) -> PendingView {
        match self {
            Pending::Idle => PendingView::Idle,
            Pending::Detecting(p, i) => PendingView::Detecting(p@, *i as nat),
            Pending::Listing(p) => PendingView::Listing(p@),
        }
    }
}

/// The state of a walk over a tree of directories. The walk itself does no
/// I/O: it says which outside work it needs next (`next_action`) and is told
/// the outcome (`on_detect`, `on_listed`).
pub struct Walker {
    n_categories: usize,
    stack: Vec<Entry>,
    pending: Pending,
    messages: Vec<WalkMessage>,
}

/// The model of a `Walker`. The top of `stack` is its last element.
pub struct WalkerView {
    pub n_categories: nat,
    pub stack: Seq<EntryView>,
    pub pending: PendingView,
    pub messages: Seq<MessageView>,
}

pub open spec fn entries_view(v: Seq<Entry>) -> Seq<EntryView> {
    v.map_values(|e: Entry| e@)
}

pub open spec fn messages_view(v: Seq<WalkMessage>) -> Seq<MessageView> {
    v.map_values(|m: WalkMessage| m@)
}

impl View for Walker {
    type V = WalkerView;

    closed spec fn view(&self) -> WalkerView {
        WalkerView {
            n_categories: self.n_categories as nat,
            stack: entries_view(self.stack@),
            pending: self.pending@,
            messages: messages_view(self.messages@),
        }
    }
}

/// A walk that is about to visit `roots`, in order, with `n` categories.
pub open spec fn initial_spec(n: nat, roots: Seq<EntryView>) -> WalkerView {
    WalkerView {
        n_categories: n,
        stack: roots.reverse(),
        pending: PendingView::Idle,
        messages: Seq::empty(),
    }
}

/// The step that `Walker::next_action` takes: a pending request is repeated;
/// otherwise paths that are not directories are taken off the stack and
/// reported, until a directory is found, whose detection starts with the
/// first category (or, with no categories at all, which is listed).
pub open spec fn advance_spec(w: WalkerView) -> (WalkerView, ActionView)
    decreases w.stack.len(),
{
    match w.pending {
        PendingView::Detecting(p, i) => (w, ActionView::Detect(p, i)),
        PendingView::Listing(p) => (w, ActionView::List(p)),
        PendingView::Idle => {
            if w.stack.len() == 0 {
                (w, ActionView::Finished)
            } else {
                let top = w.stack.last();
                let rest = WalkerView { stack: w.stack.drop_last(), ..w };
                if !top.is_dir {
                    advance_spec(
                        WalkerView {
                            messages: w.messages.push(MessageView::MiscFile(top.path)),
                            ..rest
                        },
                    )
                } else if w.n_categories == 0 {
                    (
                        WalkerView { pending: PendingView::Listing(top.path), ..rest },
                        ActionView::List(top.path),
                    )
                } else {
                    (
                        WalkerView { pending: PendingView::Detecting(top.path, 0), ..rest },
                        ActionView::Detect(top.path, 0),
                    )
                }
            }
        },
    }
}

/// The step that `Walker::on_detect` takes: a success puts the directory in
/// the category tried; a failure tries the next category, or, after the
/// last one, lists the directory.
pub open spec fn on_detect_spec(w: WalkerView, success: bool) -> WalkerView {
    match w.pending {
        PendingView::Detecting(p, i) => {
            if success {
                WalkerView {
                    pending: PendingView::Idle,
                    messages: w.messages.push(MessageView::CategorizedDir(i, p)),
                    ..w
                }
            } else if i + 1 < w.n_categories {
                WalkerView { pending: PendingView::Detecting(p, i + 1), ..w }
            } else {
                WalkerView { pending: PendingView::Listing(p), ..w }
            }
        },
        _ => w,
    }
}

/// The step that `Walker::on_listed` takes: the entries of the directory
/// being listed are put on the stack so that the first entry is visited
/// first.
pub open spec fn on_listed_spec(w: WalkerView, entries: Seq<EntryView>) -> WalkerView {
    match w.pending {
        PendingView::Listing(_) => WalkerView {
            pending: PendingView::Idle,
            stack: w.stack + entries.reverse(),
            ..w
        },
        _ => w,
    }
}

/// Puts the elements of `from` on top of `to`, last element first, so that
/// the first element of `from` ends up on top.
fn push_reversed(to: &mut Vec<Entry>, from: Vec<Entry>)
    ensures
        entries_view(final(to)@) == entries_view(old(to)@) + entries_view(from@).reverse(),
{
    let mut from = from;
    let ghost orig = entries_view(from@);
    let ghost base = entries_view(to@);
    while from.len() > 0
        invariant
            entries_view(from@) == orig.take(from@.len() as int),
            entries_view(to@) == base + orig.skip(from@.len() as int).reverse(),
            from@.len() <= orig.len(),
        decreases from.len(),
    {
        let ghost k = from@.len() as int;
        let ghost old_from = from@;
        let ghost old_to = to@;
        let e = from.pop().unwrap();
        assert(e@ == entries_view(old_from)[k - 1]);
        to.push(e);
        assert(entries_view(to@) =~= entries_view(old_to).push(orig[k - 1]));
        assert(entries_view(from@) =~= orig.take(k - 1));
        assert(orig.skip(k - 1).reverse() =~= orig.skip(k).reverse().push(orig[k - 1]));
        assert(entries_view(to@) =~= base + orig.skip(k - 1).reverse());
    }
    assert(orig.skip(0) =~= orig);
}

/// Every category index the walk holds, in its pending detection and in its
/// messages, is below the number of categories.
pub open spec fn categories_in_range(w: WalkerView) -> bool {
    &&& (w.pending matches PendingView::Detecting(_, i) ==> i < w.n_categories)
    &&& forall|k: int|
        0 <= k < w.messages.len() ==> ((#[trigger] w.messages[k]) matches MessageView::CategorizedDir(
            c,
            _,
        ) ==> c < w.n_categories)
}

/// Takes the paths that are not directories off the top of `stack` and
/// reports them, then takes off the directory below them, if any: the step
/// `advance_spec` takes from an idle walk.
fn pop_files(n_categories: usize, stack: &mut Vec<Entry>, messages: &mut Vec<WalkMessage>) -> (dir:
    Option<String>)
    ensures
        ({
            let start = WalkerView {
                n_categories: n_categories as nat,
                stack: entries_view(old(stack)@),
                pending: PendingView::Idle,
                messages: messages_view(old(messages)@),
            };
            let (w1, action) = advance_spec(start);
            &&& w1.stack == entries_view(final(stack)@)
            &&& w1.messages == messages_view(final(messages)@)
            &&& w1.n_categories == n_categories
            &&& match dir {
                None => action is Finished && w1.pending is Idle,
                Some(p) => if n_categories == 0 {
                    action == ActionView::List(p@) && w1.pending == PendingView::Listing(p@)
                } else {
                    action == ActionView::Detect(p@, 0) && w1.pending == PendingView::Detecting(
                        p@,
                        0,
                    )
                },
            }
        }),
        messages_view(final(messages)@).take(old(messages)@.len() as int) == messages_view(
            old(messages)@,
        ),
        forall|k: int|
            old(messages)@.len() <= k < final(messages)@.len() ==> (#[trigger] messages_view(
                final(messages)@,
            )[k]) is MiscFile,
        final(messages)@.len() >= old(messages)@.len(),
{
    let ghost start = WalkerView {
        n_categories: n_categories as nat,
        stack: entries_view(stack@),
        pending: PendingView::Idle,
        messages: messages_view(messages@),
    };
    let ghost first = messages_view(messages@);
    loop
        invariant
            advance_spec(
                WalkerView {
                    n_categories: n_categories as nat,
                    stack: entries_view(stack@),
                    pending: PendingView::Idle,
                    messages: messages_view(messages@),
                },
            ) == advance_spec(start),
            start == (WalkerView {
                n_categories: n_categories as nat,
                stack: entries_view(old(stack)@),
                pending: PendingView::Idle,
                messages: messages_view(old(messages)@),
            }),
            first == messages_view(old(messages)@),
            messages_view(messages@).take(first.len() as int) == first,
            messages@.len() >= first.len(),
            forall|k: int|
                first.len() <= k < messages@.len() ==> (#[trigger] messages_view(messages@)[k]) is MiscFile,
        decreases stack.len(),
    {
        let ghost before = messages_view(messages@);
        let ghost before_stack = entries_view(stack@);
        match stack.pop() {
            None => {
                return None;
            },
            Some(top) => {
                assert(entries_view(stack@) =~= before_stack.drop_last());
                if !top.is_dir {
                    messages.push(WalkMessage::MiscFile(top.path));
                    assert(messages_view(messages@) =~= before.push(
                        MessageView::MiscFile(before_stack.last().path),
                    ));
                    assert(messages_view(messages@).take(first.len() as int) =~= before.take(
                        first.len() as int,
                    ));
                } else {
                    return Some(top.path);
                }
            },
        }
    }
}

impl Walker {
    #[verifier::type_invariant]
    spec fn well_formed(self) -> bool {
        categories_in_range(self@)
    }

    /// A walk that will visit `roots` in order, trying `n_categories`
    /// categories on each directory.
    pub fn new(n_categories: usize, roots: Vec<Entry>) -> (w: Walker)
        ensures
            w@ == initial_spec(n_categories as nat, entries_view(roots@)),
            categories_in_range(w@),
    {
        let mut stack: Vec<Entry> = Vec::new();
        push_reversed(&mut stack, roots);
        let w = Walker { n_categories, stack, pending: Pending::Idle, messages: Vec::new() };
        assert(w@.stack =~= entries_view(roots@).reverse());
        assert(w@.messages =~= Seq::empty());
        w
    }

    /// The outside work needed next; paths that are not directories are
    /// reported on the way.
    pub fn next_action(&mut self) -> (action: Action)
        ensures
            (final(self)@, action@) == advance_spec(old(self)@),
            categories_in_range(final(self)@),
            action@ matches ActionView::Detect(_, i) ==> i < final(self)@.n_categories,
    {
        proof {
            use_type_invariant(&*self);
        }
        match &self.pending {
            Pending::Detecting(p, i) => {
                return Action::Detect(p.clone(), *i);
            },
            Pending::Listing(p) => {
                return Action::List(p.clone());
            },
            Pending::Idle => {},
        }
        let ghost start = self@;
        let mut stack: Vec<Entry> = Vec::new();
        std::mem::swap(&mut stack, &mut self.stack);
        let mut messages: Vec<WalkMessage> = Vec::new();
        std::mem::swap(&mut messages, &mut self.messages);
        let found = pop_files(self.n_categories, &mut stack, &mut messages);
        self.stack = stack;
        proof {
            let mv = messages_view(messages@);
            assert forall|k: int| 0 <= k < mv.len() implies ((#[trigger] mv[k]) matches MessageView::CategorizedDir(
                c,
                _,
            ) ==> c < self.n_categories) by {
                if k < start.messages.len() {
                    assert(mv[k] == mv.take(start.messages.len() as int)[k]);
                }
            }
        }
        self.messages = messages;
        match found {
            None => Action::Finished,
            Some(p) => {
                if self.n_categories == 0 {
                    let action = Action::List(p.clone());
                    self.pending = Pending::Listing(p);
                    action
                } else {
                    let action = Action::Detect(p.clone(), 0);
                    self.pending = Pending::Detecting(p, 0);
                    action
                }
            },
        }
    }

    /// Tells the walk whether the detection it asked for succeeded. Without
    /// such a pending request, nothing changes.
    pub fn on_detect(&mut self, success: bool)
        ensures
            final(self)@ == on_detect_spec(old(self)@, success),
            categories_in_range(final(self)@),
    {
        proof {
            use_type_invariant(&*self);
        }
        let ghost before = self@;
        let mut pending = Pending::Idle;
        std::mem::swap(&mut pending, &mut self.pending);
        match pending {
            Pending::Detecting(p, i) => {
                if success {
                    let mut messages: Vec<WalkMessage> = Vec::new();
                    std::mem::swap(&mut messages, &mut self.messages);
                    messages.push(WalkMessage::CategorizedDir(i, p));
                    assert(messages_view(messages@) =~= before.messages.push(
                        MessageView::CategorizedDir(i as nat, p@),
                    ));
                    self.messages = messages;
                } else if i < self.n_categories && i + 1 < self.n_categories {
                    self.pending = Pending::Detecting(p, i + 1);
                } else {
                    self.pending = Pending::Listing(p);
                }
            },
            other => {
                self.pending = other;
            },
        }
    }

    /// Hands the walk the entries of the directory it asked to list. Without
    /// such a pending request, nothing changes.
    pub fn on_listed(&mut self, entries: Vec<Entry>)
        ensures
            final(self)@ == on_listed_spec(old(self)@, entries_view(entries@)),
            categories_in_range(final(self)@),
    {
        proof {
            use_type_invariant(&*self);
        }
        match &self.pending {
            Pending::Listing(_) => {
                let mut stack: Vec<Entry> = Vec::new();
                std::mem::swap(&mut stack, &mut self.stack);
                push_reversed(&mut stack, entries);
                self.stack = stack;
                self.pending = Pending::Idle;
            },
            _ => {},
        }
    }

    /// The messages reported so far.
    pub fn messages(&self) -> (res: &Vec<WalkMessage>)
        ensures
            messages_view(res@) == self@.messages,
            categories_in_range(self@),
    {
        proof {
            use_type_invariant(self);
        }
        &self.messages
    }

    /// Ends the walk, handing out the messages it reported.
    pub fn into_messages(self) -> (res: Vec<WalkMessage>)
        ensures
            messages_view(res@) == self@.messages,
            categories_in_range(self@),
    {
        proof {
            use_type_invariant(&self);
        }
        self.messages
    }
}

/// A walk never takes back what it reported: each step keeps the messages
/// reported so far as they were, and at most adds to them.
pub proof fn lemma_steps_only_add_messages(w: WalkerView, success: bool, entries: Seq<EntryView>)
    ensures
        advance_spec(w).0.messages.take(w.messages.len() as int) == w.messages,
        advance_spec(w).0.messages.len() >= w.messages.len(),
        on_detect_spec(w, success).messages.take(w.messages.len() as int) == w.messages,
        on_detect_spec(w, success).messages.len() >= w.messages.len(),
        on_listed_spec(w, entries).messages == w.messages,
    decreases w.stack.len(),
{
    assert(w.messages.take(w.messages.len() as int) =~= w.messages);
    if w.pending is Idle && w.stack.len() > 0 && !w.stack.last().is_dir {
        let top = w.stack.last();
        let w2 = WalkerView {
            stack: w.stack.drop_last(),
            messages: w.messages.push(MessageView::MiscFile(top.path)),
            ..w
        };
        lemma_steps_only_add_messages(w2, success, entries);
        let m = advance_spec(w).0.messages;
        assert(m.take(w.messages.len() as int) =~= m.take(w2.messages.len() as int).take(
            w.messages.len() as int,
        ));
        assert(w2.messages.take(w.messages.len() as int) =~= w.messages);
    }
    if let PendingView::Detecting(p, i) = w.pending {
        if success {
            assert(on_detect_spec(w, success).messages.take(w.messages.len() as int)
                =~= w.messages);
        }
    }
}

} // verus!
