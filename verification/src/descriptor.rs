use crate::bean::{autumn_id, AutumnIdentified};
use crate::context::{AutumnContext, AutumnContextReference};
use crate::ptr::{share, UnknownPointer};
use crate::result::AutumnResult;
use std::marker::PhantomData;
use std::sync::Arc;
use vstd::prelude::*;

verus! {

/// A type that stands for one capability: an operation that beans may expose
/// and that callers look up by this type.
pub trait AutumnBeanInstanceMethodType: AutumnIdentified {

}

/// One way to invoke a capability: the parameters fixed at registration and the
/// method that carries the invocation out.
pub struct AutumnBeanInstanceMethodDescriptorInner<P, M> {
    pub parameters: P,
    pub method: M,
}

/// A method descriptor together with the capability `MT` that it belongs to.
pub struct AutumnBeanInstanceMethodDescriptor<MT, P, M> {
    inner: AutumnBeanInstanceMethodDescriptorInner<P, M>,
    marker: PhantomData<MT>,
}

impl<MT: AutumnBeanInstanceMethodType, P, M> AutumnBeanInstanceMethodDescriptor<MT, P, M> {
    /// The parameters and the method that the descriptor holds.
    pub closed spec fn spec_inner(&self) -> AutumnBeanInstanceMethodDescriptorInner<P, M> {
        self.inner
    }

    /// A descriptor of the capability `MT` from its parameters and its method.
    pub fn new(parameters: Box<P>, method: M) -> (descriptor: Self)
        ensures
            descriptor.spec_inner() == (AutumnBeanInstanceMethodDescriptorInner {
                parameters: *parameters,
                method,
            }),
    {
        AutumnBeanInstanceMethodDescriptor {
            inner: AutumnBeanInstanceMethodDescriptorInner { parameters: *parameters, method },
            marker: PhantomData,
        }
    }

    /// The parameters fixed at registration.
    pub fn get_parameters(&self) -> (parameters: &P)
        ensures
            *parameters == self.spec_inner().parameters,
    {
        &self.inner.parameters
    }
}

/// The items of `entries` that are filed under `key`, in their order.
pub open spec fn selected<D>(entries: Seq<(u64, D)>, key: u64) -> Seq<D>
    decreases entries.len(),
{
    if entries.len() == 0 {
        Seq::empty()
    } else {
        let rest = selected(entries.drop_last(), key);
        if entries.last().0 == key {
            rest.push(entries.last().1)
        } else {
            rest
        }
    }
}

/// Appending an entry appends its item to what is selected under its key, and
/// changes what is selected under no other key.
pub proof fn lemma_selected_push<D>(entries: Seq<(u64, D)>, entry: (u64, D), key: u64)
    ensures
        selected(entries.push(entry), key) == if entry.0 == key {
            selected(entries, key).push(entry.1)
        } else {
            selected(entries, key)
        },
{
    assert(entries.push(entry).drop_last() =~= entries);
}

/// The capabilities that one bean exposes: for each capability, the ways to
/// invoke it, in the order in which they were added.
pub struct AutumnBeanInstanceDescriptor<P, M> {
    methods: Vec<(u64, Arc<AutumnBeanInstanceMethodDescriptorInner<P, M>>)>,
}

impl<P, M> AutumnBeanInstanceDescriptor<P, M> {
    /// Every method descriptor with the key of its capability, in the order in
    /// which they were added.
    pub closed spec fn spec_entries(&self) -> Seq<
        (u64, AutumnBeanInstanceMethodDescriptorInner<P, M>),
    > {
        Seq::new(self.methods.len() as nat, |i: int| (self.methods[i].0, *self.methods[i].1))
    }

    /// The method descriptors of the capability with this key, in the order in
    /// which they were added.
    pub open spec fn spec_methods(&self, capability: u64) -> Seq<
        AutumnBeanInstanceMethodDescriptorInner<P, M>,
    > {
        selected(self.spec_entries(), capability)
    }

    /// A descriptor that exposes no capability.
    pub fn empty() -> (descriptor: Self)
        ensures
            descriptor.spec_entries() == Seq::<
                (u64, AutumnBeanInstanceMethodDescriptorInner<P, M>),
            >::empty(),
    {
        let descriptor = AutumnBeanInstanceDescriptor { methods: Vec::new() };
        assert(descriptor.spec_entries() =~= Seq::empty());
        descriptor
    }

    /// A shared descriptor that exposes no capability.
    pub fn empty_arc() -> (descriptor: Arc<Self>)
        ensures
            descriptor.spec_entries() == Seq::<
                (u64, AutumnBeanInstanceMethodDescriptorInner<P, M>),
            >::empty(),
    {
        Arc::new(Self::empty())
    }

    /// Adds one more way to invoke the capability `MT`, after those that are
    /// there.
    pub fn add_method_descriptor<MT: AutumnBeanInstanceMethodType>(
        &mut self,
        method_descriptor: AutumnBeanInstanceMethodDescriptor<MT, P, M>,
    )
        ensures
            final(self).spec_entries() == old(self).spec_entries().push(
                (MT::IDENTIFIER, method_descriptor.spec_inner()),
            ),
    {
        self.methods.push((autumn_id::<MT>(), Arc::new(method_descriptor.inner)));
        assert(self.spec_entries() =~= old(self).spec_entries().push(
            (MT::IDENTIFIER, method_descriptor.spec_inner()),
        ));
    }

    /// The ways to invoke the capability `MT`, in the order in which they were
    /// added; `None` where the bean does not expose it.
    pub fn get_method_descriptors<MT: AutumnBeanInstanceMethodType>(&self) -> (found: Option<
        Vec<&AutumnBeanInstanceMethodDescriptorInner<P, M>>,
    >)
        ensures
            match found {
                Some(list) => list@.len() > 0 && list@.map_values(
                    |d: &AutumnBeanInstanceMethodDescriptorInner<P, M>| *d,
                ) == self.spec_methods(MT::IDENTIFIER),
                None => self.spec_methods(MT::IDENTIFIER).len() == 0,
            },
    {
        let capability = autumn_id::<MT>();
        let mut list: Vec<&AutumnBeanInstanceMethodDescriptorInner<P, M>> = Vec::new();
        let mut i: usize = 0;
        while i < self.methods.len()
            invariant
                i <= self.methods.len(),
                list@.map_values(|d: &AutumnBeanInstanceMethodDescriptorInner<P, M>| *d)
                    == selected(self.spec_entries().take(i as int), capability),
            decreases self.methods.len() - i,
        {
            proof {
                let entries = self.spec_entries();
                assert(entries.take(i + 1) =~= entries.take(i as int).push(entries[i as int]));
                lemma_selected_push(entries.take(i as int), entries[i as int], capability);
            }
            if self.methods[i].0 == capability {
                let ghost before = list@;
                list.push(&*self.methods[i].1);
                assert(list@.map_values(|d: &AutumnBeanInstanceMethodDescriptorInner<P, M>| *d)
                    =~= before.map_values(
                    |d: &AutumnBeanInstanceMethodDescriptorInner<P, M>| *d,
                ).push(*self.methods[i as int].1));
            }
            i += 1;
        }
        assert(self.spec_entries().take(self.methods.len() as int) =~= self.spec_entries());
        if list.len() == 0 {
            None
        } else {
            Some(list)
        }
    }

    /// The number of method descriptors, over all capabilities.
    pub(crate) fn len(&self) -> (n: usize)
        ensures
            n == self.spec_entries().len(),
    {
        self.methods.len()
    }

    /// The key of the capability of the method descriptor at `at`, and a
    /// handle to the descriptor.
    pub(crate) fn entry(&self, at: usize) -> (entry: (
        u64,
        Arc<AutumnBeanInstanceMethodDescriptorInner<P, M>>,
    ))
        requires
            at < self.spec_entries().len(),
        ensures
            (entry.0, *entry.1) == self.spec_entries()[at as int],
    {
        (self.methods[at].0, share(&self.methods[at].1))
    }
}

/// Each method descriptor of `methods` bound to `bean`, in the same order.
pub open spec fn bound<B, P, M>(
    bean: B,
    methods: Seq<AutumnBeanInstanceMethodDescriptorInner<P, M>>,
) -> Seq<(B, AutumnBeanInstanceMethodDescriptorInner<P, M>)> {
    Seq::new(methods.len(), |i: int| (bean, methods[i]))
}

/// The capabilities that the beans of one context expose: for each capability,
/// the beans that expose it, each with the way to invoke it, in the order in
/// which they were registered.
pub(crate) struct AutumnContextDescriptor<B, P, M> {
    methods: Vec<(u64, (UnknownPointer<B>, Arc<AutumnBeanInstanceMethodDescriptorInner<P, M>>))>,
}

impl<B, P, M> AutumnContextDescriptor<B, P, M> {
    /// Every registered pair of a bean and a method descriptor with the key of
    /// its capability, in the order of registration.
    pub(crate) closed spec fn spec_entries(&self) -> Seq<
        (u64, (B, AutumnBeanInstanceMethodDescriptorInner<P, M>)),
    > {
        Seq::new(
            self.methods.len() as nat,
            |i: int| (self.methods[i].0, (self.methods[i].1.0@, *self.methods[i].1.1)),
        )
    }

    /// The pairs registered for the capability with this key, in the order of
    /// registration.
    pub(crate) open spec fn spec_calls(&self, capability: u64) -> Seq<
        (B, AutumnBeanInstanceMethodDescriptorInner<P, M>),
    > {
        selected(self.spec_entries(), capability)
    }

    /// A table in which nothing is registered.
    pub(crate) fn new() -> (table: Self)
        ensures
            forall|capability: u64| (#[trigger] table.spec_calls(capability)).len() == 0,
    {
        let table = AutumnContextDescriptor { methods: Vec::new() };
        assert(table.spec_entries() =~= Seq::empty());
        table
    }

    /// Registers every method descriptor of `descriptor` for `bean`, after
    /// what is registered.
    pub(crate) fn merge(
        &mut self,
        bean: &UnknownPointer<B>,
        descriptor: &AutumnBeanInstanceDescriptor<P, M>,
    )
        ensures
            forall|capability: u64|
                (#[trigger] final(self).spec_calls(capability)) == old(self).spec_calls(
                    capability,
                ).add(bound(bean@, descriptor.spec_methods(capability))),
    {
        let count = descriptor.len();
        let mut i: usize = 0;
        proof {
            assert forall|capability: u64|
                (#[trigger] self.spec_calls(capability)) == old(self).spec_calls(capability).add(
                    bound(bean@, selected(descriptor.spec_entries().take(0), capability)),
                ) by {
                assert(bound(bean@, selected(descriptor.spec_entries().take(0), capability))
                    =~= Seq::empty());
                assert(old(self).spec_calls(capability).add(Seq::empty())
                    =~= old(self).spec_calls(capability));
            }
        }
        while i < count
            invariant
                i <= count,
                count == descriptor.spec_entries().len(),
                forall|capability: u64|
                    (#[trigger] self.spec_calls(capability)) == old(self).spec_calls(
                        capability,
                    ).add(
                        bound(bean@, selected(descriptor.spec_entries().take(i as int), capability)),
                    ),
            decreases count - i,
        {
            let (key, method) = descriptor.entry(i);
            let ghost before = self.spec_entries();
            let ghost calls_before = *self;
            let ghost added = descriptor.spec_entries()[i as int].1;
            let ghost entry = (key, (bean@, added));
            self.methods.push((key, (bean.share(), method)));
            proof {
                let entries = descriptor.spec_entries();
                assert(self.spec_entries() =~= before.push(entry));
                assert(entries.take(i + 1) =~= entries.take(i as int).push(entries[i as int]));
                assert forall|capability: u64|
                    (#[trigger] self.spec_calls(capability)) == old(self).spec_calls(
                        capability,
                    ).add(bound(bean@, selected(entries.take(i + 1), capability))) by {
                    lemma_selected_push(before, entry, capability);
                    lemma_selected_push(entries.take(i as int), entries[i as int], capability);
                    let earlier = selected(entries.take(i as int), capability);
                    assert(calls_before.spec_calls(capability) == old(self).spec_calls(
                        capability,
                    ).add(bound(bean@, earlier)));
                    if key == capability {
                        assert(bound(bean@, earlier.push(added)) =~= bound(bean@, earlier).push(
                            (bean@, added),
                        ));
                        assert(old(self).spec_calls(capability).add(bound(bean@, earlier)).push(
                            (bean@, added),
                        ) =~= old(self).spec_calls(capability).add(
                            bound(bean@, earlier).push((bean@, added)),
                        ));
                    }
                }
            }
            i += 1;
        }
        proof {
            assert(descriptor.spec_entries().take(count as int) =~= descriptor.spec_entries());
        }
    }

    /// The number of registered pairs, over all capabilities.
    pub(crate) fn len(&self) -> (n: usize)
        ensures
            n == self.spec_entries().len(),
    {
        self.methods.len()
    }

    /// The pair registered at `at`: the key of its capability, the bean and the
    /// method descriptor.
    pub(crate) fn entry(&self, at: usize) -> (entry: (
        u64,
        &UnknownPointer<B>,
        &AutumnBeanInstanceMethodDescriptorInner<P, M>,
    ))
        requires
            at < self.spec_entries().len(),
        ensures
            (entry.0, (entry.1@, *entry.2)) == self.spec_entries()[at as int],
    {
        (self.methods[at].0, &self.methods[at].1.0, &*self.methods[at].1.1)
    }
}

/// What a capability is invoked on: the bean that exposes it, and the context
/// that holds the bean, with exclusive or with shared access.
pub struct AutumnBeanInstanceMethodReference<'a, B, C, P, M> {
    bean: UnknownPointer<B>,
    context: AutumnContextReference<'a, B, C, P, M>,
}

impl<'a, B, C, P, M> AutumnBeanInstanceMethodReference<'a, B, C, P, M> {
    /// The bean.
    pub closed spec fn spec_bean(&self) -> B {
        self.bean@
    }

    /// The context.
    pub closed spec fn spec_context(&self) -> AutumnContext<B, C, P, M> {
        self.context.spec_context()
    }

    /// Whether the access to the context is exclusive.
    pub closed spec fn spec_mutable(&self) -> bool {
        self.context.spec_mutable()
    }

    /// A reference with exclusive access to the context.
    pub fn new_mut(
        bean: UnknownPointer<B>,
        context: &'a mut AutumnContext<B, C, P, M>,
    ) -> (reference: Self)
        ensures
            reference.spec_bean() == bean@,
            reference.spec_context() == *old(context),
            reference.spec_mutable(),
    {
        AutumnBeanInstanceMethodReference {
            bean,
            context: AutumnContextReference::Mutable(context),
        }
    }

    /// A reference with shared access to the context.
    pub fn new(bean: UnknownPointer<B>, context: &'a AutumnContext<B, C, P, M>) -> (reference: Self)
        ensures
            reference.spec_bean() == bean@,
            reference.spec_context() == *context,
            !reference.spec_mutable(),
    {
        AutumnBeanInstanceMethodReference {
            bean,
            context: AutumnContextReference::Immutable(context),
        }
    }

    /// The bean, and the context for changing; `None` where the access is
    /// shared.
    pub fn as_mut<'b>(&'b mut self) -> (pair: Option<(&'b B, &'b mut AutumnContext<B, C, P, M>)>)
        ensures
            pair is Some <==> old(self).spec_mutable(),
            pair matches Some((bean, context)) ==> *bean == old(self).spec_bean() && *context
                == old(self).spec_context() && final(self).spec_context() == *final(context),
            pair is None ==> *final(self) == *old(self),
            final(self).spec_bean() == old(self).spec_bean(),
            final(self).spec_mutable() == old(self).spec_mutable(),
    {
        match self.context.get_mut() {
            Some(context) => Some((self.bean.get(), context)),
            None => None,
        }
    }

    /// The bean, and the context for reading.
    pub fn as_ref<'b>(&'b self) -> (pair: (&'b B, &'b AutumnContext<B, C, P, M>))
        ensures
            *pair.0 == self.spec_bean(),
            *pair.1 == self.spec_context(),
    {
        let context = match &self.context {
            AutumnContextReference::Mutable(mutable) => &**mutable,
            AutumnContextReference::Immutable(immutable) => &**immutable,
        };
        (self.bean.get(), context)
    }

    /// The same reference, lent for one call.
    pub fn reborrow<'b>(&'b mut self) -> (lent: AutumnBeanInstanceMethodReference<'b, B, C, P, M>)
        ensures
            lent.spec_bean() == old(self).spec_bean(),
            lent.spec_context() == old(self).spec_context(),
            lent.spec_mutable() == old(self).spec_mutable(),
            final(self).spec_bean() == old(self).spec_bean(),
            final(self).spec_mutable() == old(self).spec_mutable(),
            !old(self).spec_mutable() ==> *final(self) == *old(self),
    {
        let context = match &mut self.context {
            AutumnContextReference::Mutable(mutable) => AutumnContextReference::Mutable(
                &mut **mutable,
            ),
            AutumnContextReference::Immutable(immutable) => AutumnContextReference::Immutable(
                &**immutable,
            ),
        };
        AutumnBeanInstanceMethodReference { bean: self.bean.share(), context }
    }

    /// The handle of the bean, and the context with the access that the
    /// reference has.
    pub fn as_unknown_ref(self) -> (pair: (
        UnknownPointer<B>,
        AutumnContextReference<'a, B, C, P, M>,
    ))
        ensures
            pair.0@ == self.spec_bean(),
            pair.1.spec_context() == self.spec_context(),
            pair.1.spec_mutable() == self.spec_mutable(),
    {
        (self.bean, self.context)
    }
}

/// The method of a capability. It gets the bean and the context through the
/// reference, the parameters fixed at registration, and the arguments of the
/// call.
pub trait AutumnBeanInstanceMethod<B, C, P>: Sized {
    /// What a caller passes with each call.
    type Arguments;

    fn invoke(
        &self,
        reference: AutumnBeanInstanceMethodReference<'_, B, C, P, Self>,
        parameters: &P,
        arguments: &Self::Arguments,
    ) -> AutumnResult<()>;
}

/// A capability of one bean, ready to be invoked.
pub struct AutumnBeanInstanceMethodCall<'a, B, C, P, M> {
    pub reference: AutumnBeanInstanceMethodReference<'a, B, C, P, M>,
    pub descriptor: &'a AutumnBeanInstanceMethodDescriptorInner<P, M>,
}

impl<'a, B, C, P, M: AutumnBeanInstanceMethod<B, C, P>> AutumnBeanInstanceMethodCall<
    'a,
    B,
    C,
    P,
    M,
> {
    /// Invokes the capability on the bean with `arguments`, and returns what
    /// its method returns. The handle keeps its descriptor, its bean and its
    /// access; with shared access it stays as it is altogether.
    pub fn call(&mut self, arguments: &M::Arguments) -> (result: AutumnResult<()>)
        ensures
            exists|lent: AutumnBeanInstanceMethodReference<'_, B, C, P, M>|
                {
                    &&& lent.spec_bean() == old(self).reference.spec_bean()
                    &&& lent.spec_context() == old(self).reference.spec_context()
                    &&& lent.spec_mutable() == old(self).reference.spec_mutable()
                    &&& #[trigger] call_ensures(
                        M::invoke,
                        (
                            &old(self).descriptor.method,
                            lent,
                            &old(self).descriptor.parameters,
                            arguments,
                        ),
                        result,
                    )
                },
            final(self).descriptor == old(self).descriptor,
            final(self).reference.spec_bean() == old(self).reference.spec_bean(),
            final(self).reference.spec_mutable() == old(self).reference.spec_mutable(),
            !old(self).reference.spec_mutable() ==> *final(self) == *old(self),
    {
        let lent = self.reference.reborrow();
        self.descriptor.method.invoke(lent, &self.descriptor.parameters, arguments)
    }
}

impl<P, M> Default for AutumnBeanInstanceDescriptor<P, M> {
    /// A descriptor that exposes no capability.
    fn default() -> (descriptor: Self)
        ensures
            descriptor.spec_entries() == Seq::<
                (u64, AutumnBeanInstanceMethodDescriptorInner<P, M>),
            >::empty(),
    {
        AutumnBeanInstanceDescriptor::empty()
    }
}

} // verus!
