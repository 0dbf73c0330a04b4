use vstd::prelude::*;
use crate::resource::Control;

verus! {

/// One entry of a menu: its label and the actions of its left and right choices.
pub struct Button<A> {
    pub name: String,
    pub left: A,
    pub right: A,
}

/// A non-empty list of buttons with a cursor on one of them.
pub struct Menu<A> {
    buttons: Vec<Button<A>>,
    cursor: usize,
}

/// Collects the buttons of a menu.
pub struct MenuBuilder<A> {
    buttons: Vec<Button<A>>,
}

impl<A: Copy> Menu<A> {
    pub closed spec fn spec_len(&self) -> int {
        self.buttons@.len() as int
    }

    pub closed spec fn spec_cursor(&self) -> int {
        self.cursor as int
    }

    pub closed spec fn spec_name(&self, i: int) -> Seq<char> {
        self.buttons@[i].name@
    }

    pub closed spec fn spec_left(&self, i: int) -> A {
        self.buttons@[i].left
    }

    pub closed spec fn spec_right(&self, i: int) -> A {
        self.buttons@[i].right
    }

    /// Both menus hold the same buttons.
    pub closed spec fn same_buttons(&self, o: Self) -> bool {
        self.buttons == o.buttons
    }

    /// A menu holds a button and its cursor points at one.
    pub closed spec fn wf(&self) -> bool {
        0 <= self.cursor < self.buttons@.len()
    }

    fn new(buttons: Vec<Button<A>>) -> (r: Menu<A>)
        requires
            buttons@.len() > 0,
        ensures
            r.wf(),
            r.spec_cursor() == 0,
            r.spec_len() == buttons@.len(),
            forall|i: int|
                0 <= i < buttons@.len() ==> r.spec_name(i) == buttons@[i].name@ && r.spec_left(i) == buttons@[i].left
                    && r.spec_right(i) == buttons@[i].right,
    {
        Menu { buttons, cursor: 0 }
    }

    pub fn len(&self) -> (r: usize)
        ensures
            r == self.spec_len(),
    {
        self.buttons.len()
    }

    pub fn cursor(&self) -> (r: usize)
        ensures
            r == self.spec_cursor(),
    {
        self.cursor
    }

    /// The labels of the buttons, in order.
    pub fn names(&self) -> (r: Vec<String>)
        ensures
            r@.len() == self.spec_len(),
            forall|i: int| 0 <= i < r@.len() ==> #[trigger] r@[i]@ == self.spec_name(i),
    {
        let mut r: Vec<String> = Vec::new();
        let mut i: usize = 0;
        while i < self.buttons.len()
            invariant
                i <= self.buttons@.len(),
                r@.len() == i,
                forall|j: int| 0 <= j < i ==> #[trigger] r@[j]@ == self.buttons@[j].name@,
            decreases self.buttons@.len() - i,
        {
            r.push(self.buttons[i].name.clone());
            i = i + 1;
        }
        r
    }

    /// Relabels button `button`.
    pub fn reset_name(&mut self, button: usize, name: String)
        requires
            old(self).wf(),
            button < old(self).spec_len(),
        ensures
            final(self).wf(),
            final(self).spec_len() == old(self).spec_len(),
            final(self).spec_cursor() == old(self).spec_cursor(),
            final(self).spec_name(button as int) == name@,
            forall|i: int| 0 <= i < old(self).spec_len() && i != button ==> final(self).spec_name(i) == old(self).spec_name(i),
            forall|i: int|
                0 <= i < old(self).spec_len() ==> final(self).spec_left(i) == old(self).spec_left(i) && final(self).spec_right(i)
                    == old(self).spec_right(i),
    {
        let old_button = &self.buttons[button];
        let b = Button { name, left: old_button.left, right: old_button.right };
        self.buttons.set(button, b);
    }

    /// Moves the cursor to the previous button, from the first to the last.
    pub fn up(&mut self)
        requires
            old(self).wf(),
        ensures
            final(self).wf(),
            final(self).spec_cursor() == if old(self).spec_cursor() == 0 {
                old(self).spec_len() - 1
            } else {
                old(self).spec_cursor() - 1
            },
            final(self).same_buttons(*old(self)),
    {
        if self.cursor == 0 {
            self.cursor = self.buttons.len() - 1;
        } else {
            self.cursor = self.cursor - 1;
        }
    }

    /// Moves the cursor to the next button, from the last to the first.
    pub fn down(&mut self)
        requires
            old(self).wf(),
        ensures
            final(self).wf(),
            final(self).spec_cursor() == (old(self).spec_cursor() + 1) % old(self).spec_len(),
            final(self).same_buttons(*old(self)),
    {
        let n = self.buttons.len();
        self.cursor = (self.cursor + 1) % n;
    }

    /// The left action of the button under the cursor.
    pub fn left(&mut self) -> (r: A)
        requires
            old(self).wf(),
        ensures
            *final(self) == *old(self),
            r == old(self).spec_left(old(self).spec_cursor()),
    {
        self.buttons[self.cursor].left
    }

    /// The right action of the button under the cursor.
    pub fn right(&mut self) -> (r: A)
        requires
            old(self).wf(),
        ensures
            *final(self) == *old(self),
            r == old(self).spec_right(old(self).spec_cursor()),
    {
        self.buttons[self.cursor].right
    }

    /// Up and down move the cursor; left and right give the action of the button under it.
    pub fn control_event(&mut self, event: Control) -> (r: Option<A>)
        requires
            old(self).wf(),
        ensures
            final(self).wf(),
            final(self).same_buttons(*old(self)),
            match event {
                Control::Up => r is None && final(self).spec_cursor() == if old(self).spec_cursor() == 0 {
                    old(self).spec_len() - 1
                } else {
                    old(self).spec_cursor() - 1
                },
                Control::Down => r is None && final(self).spec_cursor() == (old(self).spec_cursor() + 1) % old(self).spec_len(),
                Control::Left => r == Some(old(self).spec_left(old(self).spec_cursor())) && final(self).spec_cursor() == old(self).spec_cursor(),
                Control::Right => r == Some(old(self).spec_right(old(self).spec_cursor())) && final(self).spec_cursor() == old(self).spec_cursor(),
                _ => r is None && final(self).spec_cursor() == old(self).spec_cursor(),
            },
    {
        match event {
            Control::Up => {
                self.up();
                None
            },
            Control::Down => {
                self.down();
                None
            },
            Control::Left => Some(self.left()),
            Control::Right => Some(self.right()),
            _ => None,
        }
    }
}

impl<A: Copy> MenuBuilder<A> {
    pub closed spec fn spec_len(&self) -> int {
        self.buttons@.len() as int
    }

    pub closed spec fn spec_name(&self, i: int) -> Seq<char> {
        self.buttons@[i].name@
    }

    pub closed spec fn spec_left(&self, i: int) -> A {
        self.buttons@[i].left
    }

    pub closed spec fn spec_right(&self, i: int) -> A {
        self.buttons@[i].right
    }

    pub fn new() -> (r: MenuBuilder<A>)
        ensures
            r.spec_len() == 0,
    {
        MenuBuilder { buttons: Vec::new() }
    }

    /// Adds a button whose left and right choices differ.
    pub fn add_left_right(self, name: String, left: A, right: A) -> (r: MenuBuilder<A>)
        ensures
            r.spec_len() == self.spec_len() + 1,
            forall|i: int|
                0 <= i < self.spec_len() ==> r.spec_name(i) == self.spec_name(i) && r.spec_left(i) == self.spec_left(i)
                    && r.spec_right(i) == self.spec_right(i),
            r.spec_name(self.spec_len()) == name@,
            r.spec_left(self.spec_len()) == left,
            r.spec_right(self.spec_len()) == right,
    {
        let mut buttons = self.buttons;
        buttons.push(Button { name, left, right });
        MenuBuilder { buttons }
    }

    /// Adds a button whose left and right choices both give `middle`.
    pub fn add_middle(self, name: String, middle: A) -> (r: MenuBuilder<A>)
        ensures
            r.spec_len() == self.spec_len() + 1,
            forall|i: int|
                0 <= i < self.spec_len() ==> r.spec_name(i) == self.spec_name(i) && r.spec_left(i) == self.spec_left(i)
                    && r.spec_right(i) == self.spec_right(i),
            r.spec_name(self.spec_len()) == name@,
            r.spec_left(self.spec_len()) == middle,
            r.spec_right(self.spec_len()) == middle,
    {
        self.add_left_right(name, middle, middle)
    }

    /// The menu of the buttons added, with the cursor on the first.
    pub fn build(self) -> (r: Menu<A>)
        requires
            self.spec_len() > 0,
        ensures
            r.wf(),
            r.spec_cursor() == 0,
            r.spec_len() == self.spec_len(),
            forall|i: int|
                0 <= i < self.spec_len() ==> r.spec_name(i) == self.spec_name(i) && r.spec_left(i) == self.spec_left(i)
                    && r.spec_right(i) == self.spec_right(i),
    {
        Menu::new(self.buttons)
    }
}

} // verus!
