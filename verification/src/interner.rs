//! Symbols for names.
use vstd::prelude::*;

verus! {

/// Gives each distinct name one number, its symbol, and keeps the names.
pub struct Interner {
    names: Vec<String>,
}

impl View for Interner {
    type V = Seq<Seq<char>>;

    /// The names, each at the index that is its symbol.
    closed spec fn view(&self) -> Seq<Seq<char>> {
        self.names@.map_values(|name: String| name@)
    }
}

/// The symbol of `name` among `names`: the first index that holds it, or the next free one.
pub open spec fn symbol_of(names: Seq<Seq<char>>, name: Seq<char>) -> nat
    decreases names.len(),
{
    if names.len() == 0 || names.first() == name {
        0
    } else {
        symbol_of(names.drop_first(), name) + 1
    }
}

/// The names once `name` is among them.
pub open spec fn with_name(names: Seq<Seq<char>>, name: Seq<char>) -> Seq<Seq<char>> {
    if names.contains(name) {
        names
    } else {
        names.push(name)
    }
}

/// What determines a symbol: it is the only index that holds the name with the name at no
/// lower one.
pub proof fn lemma_symbol_of(names: Seq<Seq<char>>, name: Seq<char>, at: nat)
    requires
        at <= names.len(),
        forall|j: int| 0 <= j < at ==> names[j] != name,
        at < names.len() ==> names[at as int] == name,
    ensures
        symbol_of(names, name) == at,
    decreases names.len(),
{
    if at > 0 {
        assert(names[0] != name);
        let rest = names.drop_first();
        assert forall|j: int| 0 <= j < at - 1 implies rest[j] != name by {
            assert(rest[j] == names[j + 1]);
        }
        lemma_symbol_of(rest, name, (at - 1) as nat);
    }
}

/// A name is found at its symbol once it is among the names.
pub proof fn symbol_holds_name(names: Seq<Seq<char>>, name: Seq<char>)
    ensures
        symbol_of(names, name) < with_name(names, name).len(),
        with_name(names, name)[symbol_of(names, name) as int] == name,
        symbol_of(names, name) <= names.len(),
        symbol_of(names, name) < names.len() <==> names.contains(name),
    decreases names.len(),
{
    if names.len() > 0 && names.first() != name {
        let rest = names.drop_first();
        symbol_holds_name(rest, name);
        assert(names =~= seq![names.first()] + rest);
        if rest.contains(name) {
            let j = rest.index_of(name);
            assert(names[j + 1] == name);
        }
        if names.contains(name) {
            let j = names.index_of(name);
            assert(rest[j - 1] == name);
        }
    } else if names.len() > 0 {
        assert(names[0] == name);
    }
}

/// A name that has a symbol keeps it, whatever names come after it.
pub proof fn symbols_stay(names: Seq<Seq<char>>, name: Seq<char>, other: Seq<char>)
    requires
        names.contains(name),
    ensures
        symbol_of(with_name(names, other), name) == symbol_of(names, name),
        with_name(names, other).contains(name),
    decreases names.len(),
{
    let more = with_name(names, other);
    let j = names.index_of(name);
    assert(more[j] == name);
    if names.first() != name && !names.contains(other) {
        let rest = names.drop_first();
        assert(rest[j - 1] == name);
        assert(!rest.contains(other)) by {
            if rest.contains(other) {
                let k = rest.index_of(other);
                assert(names[k + 1] == other);
            }
        }
        symbols_stay(rest, name, other);
        assert(more.drop_first() =~= rest.push(other));
    }
}

/// Among names that are kept, two have the same symbol only if they are the same.
pub proof fn symbols_are_distinct(names: Seq<Seq<char>>, a: Seq<char>, b: Seq<char>)
    requires
        names.contains(a),
        names.contains(b),
    ensures
        symbol_of(names, a) == symbol_of(names, b) <==> a == b,
{
    symbol_holds_name(names, a);
    symbol_holds_name(names, b);
}

/// No name is kept twice.
pub proof fn names_stay_distinct(names: Seq<Seq<char>>, name: Seq<char>)
    requires
        names.no_duplicates(),
    ensures
        with_name(names, name).no_duplicates(),
{
}

impl Interner {
    /// An interner without names, with room for `capacity` of them.
    pub fn with_capacity(capacity: usize) -> (interner: Interner)
        ensures
            interner@ == Seq::<Seq<char>>::empty(),
    {
        let interner = Interner { names: Vec::with_capacity(capacity) };
        assert(interner@ =~= Seq::empty());
        interner
    }

    /// The symbol of `name`, which is kept if it is new.
    pub fn intern(&mut self, name: &str) -> (sym: usize)
        ensures
            final(self)@ == with_name(old(self)@, name@),
            sym == symbol_of(old(self)@, name@),
    {
        let owned = name.to_owned();
        let mut sym: usize = 0;
        while sym < self.names.len() && self.names[sym] != owned
            invariant
                self@ == old(self)@,
                owned@ == name@,
                sym <= self.names.len(),
                forall|j: int| 0 <= j < sym ==> self@[j] != name@,
            ensures
                sym < self.names.len() ==> self@[sym as int] == name@,
            decreases self.names.len() - sym,
        {
            sym += 1;
        }
        proof {
            lemma_symbol_of(self@, name@, sym as nat);
        }
        if sym == self.names.len() {
            self.names.push(owned);
            assert(self@ =~= old(self)@.push(name@));
        } else {
            assert(self@[sym as int] == name@);
        }
        sym
    }

    /// The name that a symbol stands for.
    pub fn lookup(&self, sym: usize) -> (name: Option<&str>)
        ensures
            name is Some <==> sym < self@.len(),
            name matches Some(text) ==> text@ == self@[sym as int],
    {
        if sym < self.names.len() {
            Some(self.names[sym].as_str())
        } else {
            None
        }
    }
}

} // verus!
