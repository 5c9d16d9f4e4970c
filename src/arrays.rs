//! Arrays whose length is given from outside: each item in its natural
//! encoding, or all packed in one width.
use crate::bits::{lemma_splice_twice, splice};
use crate::reader::BitPackReader;
use crate::schema::Parsed;
use crate::values::{ReadPackedValue, ReadValue, WritePackedValue, WriteValue};
use crate::writer::BitPackWriter;
use crate::BitPackError;
use vstd::prelude::*;

verus! {

/// A list read item by item; its length comes from outside.
pub trait ReadArrayValue: Sized {
    /// Whether reading `n` items at bit `p` of `s` gives `v` and ends at `q`.
    spec fn parsed_array(s: Seq<bool>, p: int, n: nat, v: Self, q: int) -> bool;

    /// The error that reading `n` items at bit `p` of `s` meets, if any.
    spec fn array_error(s: Seq<bool>, p: int, n: nat) -> Option<BitPackError>;

    fn read_array(reader: &mut BitPackReader, length: usize) -> (r: Result<Self, BitPackError>)
        ensures
            final(reader).buffer() == old(reader).buffer(),
            match Self::array_error(old(reader).stream(), old(reader).pos() as int, length as nat) {
                Some(e) => r == Err::<Self, BitPackError>(e),
                None => r matches Ok(v) && Self::parsed_array(
                    old(reader).stream(),
                    old(reader).pos() as int,
                    length as nat,
                    v,
                    final(reader).pos() as int,
                ),
            },
    ;
}

/// A list written item by item, with no length of its own on the wire.
pub trait WriteArrayValue {
    /// The bits the list is written as.
    spec fn array_wire(&self) -> Seq<bool>;

    fn write_array(&self, writer: &mut BitPackWriter) -> (r: Result<(), BitPackError>)
        requires
            old(writer).wf(),
        ensures
            final(writer).wf(),
            final(writer).buffer().len() == old(writer).buffer().len(),
            old(writer).has(self.array_wire().len()) ==> r is Ok && final(writer).wrote(
                old(writer),
                self.array_wire(),
            ),
            !old(writer).has(self.array_wire().len()) ==> r == Err::<(), BitPackError>(
                BitPackError::OutOfBounds,
            ),
    ;

    /// The number of bits the list is written as.
    fn bits_array(&self) -> (r: usize)
        requires
            self.array_wire().len() <= usize::MAX,
        ensures
            r == self.array_wire().len(),
    ;
}

/// A list of integers read in one packed width; its length comes from outside.
pub trait ReadPackedArrayValue: Sized {
    /// Whether reading `n` items of `bits` bits at bit `p` of `s` gives `v`
    /// and ends at `q`.
    spec fn parsed_packed_array(s: Seq<bool>, p: int, n: nat, bits: nat, v: Self, q: int) -> bool;

    /// The error that reading `n` items of `bits` bits at bit `p` of `s`
    /// meets, if any.
    spec fn packed_array_error(s: Seq<bool>, p: int, n: nat, bits: nat) -> Option<BitPackError>;

    fn read_packed_array(reader: &mut BitPackReader, length: usize, bits: usize) -> (r: Result<
        Self,
        BitPackError,
    >)
        requires
            bits <= 64,
        ensures
            final(reader).buffer() == old(reader).buffer(),
            match Self::packed_array_error(
                old(reader).stream(),
                old(reader).pos() as int,
                length as nat,
                bits as nat,
            ) {
                Some(e) => r == Err::<Self, BitPackError>(e),
                None => r matches Ok(v) && Self::parsed_packed_array(
                    old(reader).stream(),
                    old(reader).pos() as int,
                    length as nat,
                    bits as nat,
                    v,
                    final(reader).pos() as int,
                ),
            },
    ;
}

/// A list of integers written in one packed width, with no length of its own.
pub trait WritePackedArrayValue {
    /// The bits the list is written as with `bits` bits per item.
    spec fn packed_array_wire(&self, bits: nat) -> Seq<bool>;

    fn write_packed_array(&self, writer: &mut BitPackWriter, bits: usize) -> (r: Result<
        (),
        BitPackError,
    >)
        requires
            old(writer).wf(),
            bits <= 64,
        ensures
            final(writer).wf(),
            final(writer).buffer().len() == old(writer).buffer().len(),
            old(writer).has(self.packed_array_wire(bits as nat).len()) ==> r is Ok
                && final(writer).wrote(old(writer), self.packed_array_wire(bits as nat)),
            !old(writer).has(self.packed_array_wire(bits as nat).len()) ==> r == Err::<
                (),
                BitPackError,
            >(BitPackError::OutOfBounds),
    ;

    /// The number of bits the list takes with `bits` bits per item.
    fn bits_packed_array(&self, bits: usize) -> (r: usize)
        requires
            self.packed_array_wire(bits as nat).len() <= usize::MAX,
        ensures
            r == self.packed_array_wire(bits as nat).len(),
    ;
}

/// Reads `n` items at `p`, each in its natural encoding.
pub open spec fn parse_list<T: ReadValue>(s: Seq<bool>, p: int, n: nat) -> Parsed<Seq<T>>
    decreases n,
{
    if n == 0 {
        Ok((Seq::empty(), p))
    } else {
        match parse_list::<T>(s, p, (n - 1) as nat) {
            Ok((vs, q)) => match T::parse(s, q) {
                Ok((v, r)) => Ok((vs.push(v), r)),
                Err(e) => Err(e),
            },
            Err(e) => Err(e),
        }
    }
}

/// Reads `n` items of `bits` bits at `p`.
pub open spec fn parse_packed_list<T: ReadPackedValue>(s: Seq<bool>, p: int, n: nat, bits: nat) -> Parsed<
    Seq<T>,
>
    decreases n,
{
    if n == 0 {
        Ok((Seq::empty(), p))
    } else {
        match parse_packed_list::<T>(s, p, (n - 1) as nat, bits) {
            Ok((vs, q)) => match T::parse_packed(s, q, bits) {
                Ok((v, r)) => Ok((vs.push(v), r)),
                Err(e) => Err(e),
            },
            Err(e) => Err(e),
        }
    }
}

/// The bits of a list, each item in its natural encoding.
pub open spec fn list_wire<T: WriteValue>(v: Seq<T>) -> Seq<bool>
    decreases v.len(),
{
    if v.len() == 0 {
        Seq::empty()
    } else {
        list_wire(v.drop_last()) + v.last().wire()
    }
}

/// The bits of a list with `bits` bits per item.
pub open spec fn packed_list_wire<T: WritePackedValue>(v: Seq<T>, bits: nat) -> Seq<bool>
    decreases v.len(),
{
    if v.len() == 0 {
        Seq::empty()
    } else {
        packed_list_wire(v.drop_last(), bits) + v.last().packed_wire(bits)
    }
}

proof fn lemma_parse_list_err<T: ReadValue>(s: Seq<bool>, p: int, k: nat, n: nat)
    requires
        k <= n,
        parse_list::<T>(s, p, k) is Err,
    ensures
        parse_list::<T>(s, p, n) == parse_list::<T>(s, p, k),
    decreases n,
{
    if n > k {
        lemma_parse_list_err::<T>(s, p, k, (n - 1) as nat);
    }
}

proof fn lemma_parse_packed_list_err<T: ReadPackedValue>(
    s: Seq<bool>,
    p: int,
    k: nat,
    n: nat,
    bits: nat,
)
    requires
        k <= n,
        parse_packed_list::<T>(s, p, k, bits) is Err,
    ensures
        parse_packed_list::<T>(s, p, n, bits) == parse_packed_list::<T>(s, p, k, bits),
    decreases n,
{
    if n > k {
        lemma_parse_packed_list_err::<T>(s, p, k, (n - 1) as nat, bits);
    }
}

proof fn lemma_list_wire_prefix<T: WriteValue>(v: Seq<T>, i: int)
    requires
        0 <= i <= v.len(),
    ensures
        list_wire(v.take(i)).len() <= list_wire(v).len(),
    decreases v.len(),
{
    if i < v.len() {
        assert(v.drop_last().take(i) =~= v.take(i));
        lemma_list_wire_prefix(v.drop_last(), i);
    } else {
        assert(v.take(i) =~= v);
    }
}

proof fn lemma_packed_list_wire_prefix<T: WritePackedValue>(v: Seq<T>, bits: nat, i: int)
    requires
        0 <= i <= v.len(),
    ensures
        packed_list_wire(v.take(i), bits).len() <= packed_list_wire(v, bits).len(),
    decreases v.len(),
{
    if i < v.len() {
        assert(v.drop_last().take(i) =~= v.take(i));
        lemma_packed_list_wire_prefix(v.drop_last(), bits, i);
    } else {
        assert(v.take(i) =~= v);
    }
}

impl<T: ReadValue> ReadArrayValue for Vec<T> {
    open spec fn parsed_array(s: Seq<bool>, p: int, n: nat, v: Self, q: int) -> bool {
        parse_list::<T>(s, p, n) == Ok::<(Seq<T>, int), BitPackError>((v@, q))
    }

    open spec fn array_error(s: Seq<bool>, p: int, n: nat) -> Option<BitPackError> {
        match parse_list::<T>(s, p, n) {
            Ok(_) => None,
            Err(e) => Some(e),
        }
    }

    fn read_array(reader: &mut BitPackReader, length: usize) -> (r: Result<Self, BitPackError>) {
        let ghost s0 = reader.stream();
        let ghost p0 = reader.pos() as int;
        let mut vec: Vec<T> = Vec::new();
        assert(vec@ =~= Seq::<T>::empty());
        while vec.len() < length
            invariant
                reader.buffer() == old(reader).buffer(),
                s0 == old(reader).stream(),
                p0 == old(reader).pos(),
                vec@.len() <= length,
                parse_list::<T>(s0, p0, vec@.len()) == Ok::<(Seq<T>, int), BitPackError>(
                    (vec@, reader.pos() as int),
                ),
            decreases length - vec@.len(),
        {
            let ghost i = vec@.len();
            let x = match T::read(reader) {
                Ok(x) => x,
                Err(e) => {
                    proof {
                        assert(((i + 1) as nat - 1) as nat == i);
                        lemma_parse_list_err::<T>(s0, p0, (i + 1) as nat, length as nat);
                    }
                    return Err(e);
                },
            };
            vec.push(x);
            proof {
                assert(((i + 1) as nat - 1) as nat == i);
            }
        }
        Ok(vec)
    }
}

impl<T: ReadPackedValue> ReadPackedArrayValue for Vec<T> {
    open spec fn parsed_packed_array(s: Seq<bool>, p: int, n: nat, bits: nat, v: Self, q: int) -> bool {
        parse_packed_list::<T>(s, p, n, bits) == Ok::<(Seq<T>, int), BitPackError>((v@, q))
    }

    open spec fn packed_array_error(s: Seq<bool>, p: int, n: nat, bits: nat) -> Option<BitPackError> {
        match parse_packed_list::<T>(s, p, n, bits) {
            Ok(_) => None,
            Err(e) => Some(e),
        }
    }

    fn read_packed_array(reader: &mut BitPackReader, length: usize, bits: usize) -> (r: Result<
        Self,
        BitPackError,
    >) {
        let ghost s0 = reader.stream();
        let ghost p0 = reader.pos() as int;
        let mut vec: Vec<T> = Vec::new();
        assert(vec@ =~= Seq::<T>::empty());
        while vec.len() < length
            invariant
                bits <= 64,
                reader.buffer() == old(reader).buffer(),
                s0 == old(reader).stream(),
                p0 == old(reader).pos(),
                vec@.len() <= length,
                parse_packed_list::<T>(s0, p0, vec@.len(), bits as nat) == Ok::<
                    (Seq<T>, int),
                    BitPackError,
                >((vec@, reader.pos() as int)),
            decreases length - vec@.len(),
        {
            let ghost i = vec@.len();
            let x = match T::read_packed(reader, bits) {
                Ok(x) => x,
                Err(e) => {
                    proof {
                        assert(((i + 1) as nat - 1) as nat == i);
                        lemma_parse_packed_list_err::<T>(
                            s0,
                            p0,
                            (i + 1) as nat,
                            length as nat,
                            bits as nat,
                        );
                    }
                    return Err(e);
                },
            };
            vec.push(x);
            proof {
                assert(((i + 1) as nat - 1) as nat == i);
            }
        }
        Ok(vec)
    }
}

impl<T: WriteValue> WriteArrayValue for Vec<T> {
    open spec fn array_wire(&self) -> Seq<bool> {
        list_wire(self@)
    }

    fn write_array(&self, writer: &mut BitPackWriter) -> (r: Result<(), BitPackError>) {
        let ghost v = self@;
        let ghost whole = list_wire(v);
        let ghost s0 = writer.stream();
        let ghost p0 = writer.pos() as int;
        let mut i: usize = 0;
        assert(v.take(0) =~= Seq::<T>::empty());
        while i < self.len()
            invariant
                v == self@,
                whole == list_wire(v),
                s0 == old(writer).stream(),
                p0 == old(writer).pos(),
                writer.wf(),
                writer.buffer().len() == old(writer).buffer().len(),
                i <= v.len(),
                writer.pos() == p0 + list_wire(v.take(i as int)).len(),
                old(writer).has(whole.len()) ==> writer.stream() == splice(
                    s0,
                    p0,
                    list_wire(v.take(i as int)),
                ),
            decreases v.len() - i,
        {
            let ghost pre = list_wire(v.take(i as int));
            let ghost step = v[i as int].wire();
            proof {
                assert(v.take(i + 1).drop_last() =~= v.take(i as int));
                assert(list_wire(v.take(i + 1)) == pre + step);
                lemma_list_wire_prefix(v, i + 1);
                assert(writer.stream().len() == s0.len());
            }
            match self[i].write(writer) {
                Ok(()) => {},
                Err(e) => {
                    return Err(e);
                },
            }
            proof {
                if old(writer).has(whole.len()) {
                    lemma_splice_twice(s0, p0, pre, step);
                }
            }
            i = i + 1;
        }
        proof {
            assert(v.take(i as int) =~= v);
            writer.lemma_pos_in_bounds();
        }
        Ok(())
    }

    fn bits_array(&self) -> (r: usize) {
        let ghost v = self@;
        let mut total: usize = 0;
        let mut i: usize = 0;
        assert(v.take(0) =~= Seq::<T>::empty());
        while i < self.len()
            invariant
                v == self@,
                list_wire(v).len() <= usize::MAX,
                i <= v.len(),
                total == list_wire(v.take(i as int)).len(),
            decreases v.len() - i,
        {
            proof {
                assert(v.take(i + 1).drop_last() =~= v.take(i as int));
                lemma_list_wire_prefix(v, i + 1);
            }
            total = total + self[i].bits();
            i = i + 1;
        }
        assert(v.take(i as int) =~= v);
        total
    }
}

impl<T: WritePackedValue> WritePackedArrayValue for Vec<T> {
    open spec fn packed_array_wire(&self, bits: nat) -> Seq<bool> {
        packed_list_wire(self@, bits)
    }

    fn write_packed_array(&self, writer: &mut BitPackWriter, bits: usize) -> (r: Result<
        (),
        BitPackError,
    >) {
        let ghost v = self@;
        let ghost whole = packed_list_wire(v, bits as nat);
        let ghost s0 = writer.stream();
        let ghost p0 = writer.pos() as int;
        let mut i: usize = 0;
        assert(v.take(0) =~= Seq::<T>::empty());
        while i < self.len()
            invariant
                bits <= 64,
                v == self@,
                whole == packed_list_wire(v, bits as nat),
                s0 == old(writer).stream(),
                p0 == old(writer).pos(),
                writer.wf(),
                writer.buffer().len() == old(writer).buffer().len(),
                i <= v.len(),
                writer.pos() == p0 + packed_list_wire(v.take(i as int), bits as nat).len(),
                old(writer).has(whole.len()) ==> writer.stream() == splice(
                    s0,
                    p0,
                    packed_list_wire(v.take(i as int), bits as nat),
                ),
            decreases v.len() - i,
        {
            let ghost pre = packed_list_wire(v.take(i as int), bits as nat);
            let ghost step = v[i as int].packed_wire(bits as nat);
            proof {
                assert(v.take(i + 1).drop_last() =~= v.take(i as int));
                assert(packed_list_wire(v.take(i + 1), bits as nat) == pre + step);
                lemma_packed_list_wire_prefix(v, bits as nat, i + 1);
                assert(writer.stream().len() == s0.len());
            }
            match self[i].write_packed(writer, bits) {
                Ok(()) => {},
                Err(e) => {
                    return Err(e);
                },
            }
            proof {
                if old(writer).has(whole.len()) {
                    lemma_splice_twice(s0, p0, pre, step);
                }
            }
            i = i + 1;
        }
        proof {
            assert(v.take(i as int) =~= v);
            writer.lemma_pos_in_bounds();
        }
        Ok(())
    }

    fn bits_packed_array(&self, bits: usize) -> (r: usize) {
        let ghost v = self@;
        let mut total: usize = 0;
        let mut i: usize = 0;
        assert(v.take(0) =~= Seq::<T>::empty());
        while i < self.len()
            invariant
                v == self@,
                packed_list_wire(v, bits as nat).len() <= usize::MAX,
                i <= v.len(),
                total == packed_list_wire(v.take(i as int), bits as nat).len(),
            decreases v.len() - i,
        {
            proof {
                assert(v.take(i + 1).drop_last() =~= v.take(i as int));
                lemma_packed_list_wire_prefix(v, bits as nat, i + 1);
            }
            total = total + self[i].bits_packed(bits);
            i = i + 1;
        }
        assert(v.take(i as int) =~= v);
        total
    }
}

impl<'a> BitPackReader<'a> {
    /// Reads a value in its natural encoding.
    pub fn read<T: ReadValue>(&mut self) -> (r: Result<T, BitPackError>)
        ensures
            final(self).buffer() == old(self).buffer(),
            match T::parse(old(self).stream(), old(self).pos() as int) {
                Ok((v, q)) => r == Ok::<T, BitPackError>(v) && final(self).pos() == q,
                Err(e) => r == Err::<T, BitPackError>(e),
            },
    {
        T::read(self)
    }

    /// Reads an integer packed in `bits` bits.
    pub fn read_packed<T: ReadPackedValue>(&mut self, bits: usize) -> (r: Result<T, BitPackError>)
        requires
            bits <= 64,
        ensures
            final(self).buffer() == old(self).buffer(),
            match T::parse_packed(old(self).stream(), old(self).pos() as int, bits as nat) {
                Ok((v, q)) => r == Ok::<T, BitPackError>(v) && final(self).pos() == q,
                Err(e) => r == Err::<T, BitPackError>(e),
            },
    {
        T::read_packed(self, bits)
    }

    /// Reads `length` items, each in its natural encoding.
    pub fn read_array<T: ReadArrayValue>(&mut self, length: usize) -> (r: Result<T, BitPackError>)
        ensures
            final(self).buffer() == old(self).buffer(),
            match T::array_error(old(self).stream(), old(self).pos() as int, length as nat) {
                Some(e) => r == Err::<T, BitPackError>(e),
                None => r matches Ok(v) && T::parsed_array(
                    old(self).stream(),
                    old(self).pos() as int,
                    length as nat,
                    v,
                    final(self).pos() as int,
                ),
            },
    {
        T::read_array(self, length)
    }

    /// Reads `length` integers, each packed in `bits` bits.
    pub fn read_packed_array<T: ReadPackedArrayValue>(&mut self, length: usize, bits: usize) -> (r:
        Result<T, BitPackError>)
        requires
            bits <= 64,
        ensures
            final(self).buffer() == old(self).buffer(),
            match T::packed_array_error(
                old(self).stream(),
                old(self).pos() as int,
                length as nat,
                bits as nat,
            ) {
                Some(e) => r == Err::<T, BitPackError>(e),
                None => r matches Ok(v) && T::parsed_packed_array(
                    old(self).stream(),
                    old(self).pos() as int,
                    length as nat,
                    bits as nat,
                    v,
                    final(self).pos() as int,
                ),
            },
    {
        T::read_packed_array(self, length, bits)
    }
}

impl BitPackWriter {
    /// Writes a value in its natural encoding.
    pub fn write<T: WriteValue>(&mut self, value: &T) -> (r: Result<(), BitPackError>)
        requires
            old(self).wf(),
        ensures
            final(self).wf(),
            final(self).buffer().len() == old(self).buffer().len(),
            old(self).has(value.wire().len()) ==> r is Ok && final(self).wrote(old(self), value.wire()),
            !old(self).has(value.wire().len()) ==> r == Err::<(), BitPackError>(
                BitPackError::OutOfBounds,
            ),
    {
        value.write(self)
    }

    /// Writes an integer packed in `bits` bits.
    pub fn write_packed<T: WritePackedValue>(&mut self, value: &T, bits: usize) -> (r: Result<
        (),
        BitPackError,
    >)
        requires
            old(self).wf(),
            bits <= 64,
        ensures
            final(self).wf(),
            final(self).buffer().len() == old(self).buffer().len(),
            old(self).has(value.packed_wire(bits as nat).len()) ==> r is Ok
                && final(self).wrote(old(self), value.packed_wire(bits as nat)),
            !old(self).has(value.packed_wire(bits as nat).len()) ==> r == Err::<(), BitPackError>(
                BitPackError::OutOfBounds,
            ),
    {
        value.write_packed(self, bits)
    }

    /// Writes a list item by item, with no length of its own.
    pub fn write_array<T: WriteArrayValue>(&mut self, value: &T) -> (r: Result<(), BitPackError>)
        requires
            old(self).wf(),
        ensures
            final(self).wf(),
            final(self).buffer().len() == old(self).buffer().len(),
            old(self).has(value.array_wire().len()) ==> r is Ok
                && final(self).wrote(old(self), value.array_wire()),
            !old(self).has(value.array_wire().len()) ==> r == Err::<(), BitPackError>(
                BitPackError::OutOfBounds,
            ),
    {
        value.write_array(self)
    }

    /// Writes a list of integers, each packed in `bits` bits.
    pub fn write_packed_array<T: WritePackedArrayValue>(&mut self, value: &T, bits: usize) -> (r:
        Result<(), BitPackError>)
        requires
            old(self).wf(),
            bits <= 64,
        ensures
            final(self).wf(),
            final(self).buffer().len() == old(self).buffer().len(),
            old(self).has(value.packed_array_wire(bits as nat).len()) ==> r is Ok
                && final(self).wrote(old(self), value.packed_array_wire(bits as nat)),
            !old(self).has(value.packed_array_wire(bits as nat).len()) ==> r == Err::<
                (),
                BitPackError,
            >(BitPackError::OutOfBounds),
    {
        value.write_packed_array(self, bits)
    }
}

} // verus!
