use crate::bean::{
    autumn_id, lemma_lists_push, lists, name_view, slots_view, AutumnBean, AutumnBeanMap,
    SlotName,
};
use crate::descriptor::{
    bound, lemma_selected_push, selected, AutumnBeanInstanceDescriptor,
    AutumnBeanInstanceMethodCall, AutumnBeanInstanceMethodDescriptorInner,
    AutumnBeanInstanceMethodReference, AutumnBeanInstanceMethodType, AutumnContextDescriptor,
};
use crate::ptr::{share, UnknownPointer};
use crate::result::{outcome_of, AutumnError, AutumnResult};
use std::sync::Arc;
use vstd::prelude::*;

verus! {

/// What a factory hands over: the bean and the capabilities that it exposes.
pub struct AutumnBeanCreationData<B, P, M> {
    pub bean: Box<B>,
    pub descriptor: Arc<AutumnBeanInstanceDescriptor<P, M>>,
}

impl<B, P, M> AutumnBeanCreationData<B, P, M> {
    /// A bean that exposes no capability.
    pub fn new(bean: Box<B>) -> (data: Self)
        ensures
            data.bean == bean,
            data.descriptor.spec_entries() == Seq::<
                (u64, AutumnBeanInstanceMethodDescriptorInner<P, M>),
            >::empty(),
    {
        AutumnBeanCreationData { bean, descriptor: AutumnBeanInstanceDescriptor::empty_arc() }
    }
}

/// A factory: it produces one bean, once, when the bean is first asked for.
/// While it runs it may use the context: register beans, and ask for the beans
/// that it depends on.
///
/// `creates` says what a factory may do. It is `true` of everything unless an
/// implementation says more; the contracts of the functions that run
/// factories are stated over it.
pub trait AutumnBeanCreator<B, P, M>: Sized {
    /// What the factory may do: whether running it on the context `before`
    /// may leave the context `after` and return `created`.
    open spec fn creates(
        self,
        before: AutumnContext<B, Self, P, M>,
        after: AutumnContext<B, Self, P, M>,
        created: AutumnResult<AutumnBeanCreationData<B, P, M>>,
    ) -> bool {
        true
    }

    fn create_instance(self, context: &mut AutumnContext<B, Self, P, M>) -> (created: AutumnResult<
        AutumnBeanCreationData<B, P, M>,
    >)
        ensures
            self.creates(*old(context), *final(context), created),
    ;
}

/// A registered bean as a caller sees it: lent by the context, with the
/// capabilities that it exposes.
pub struct AutumnBeanInstance<'a, B, P, M> {
    pub instance: &'a B,
    pub descriptor: Arc<AutumnBeanInstanceDescriptor<P, M>>,
}

impl<'a, B, P, M> AutumnBeanInstance<'a, B, P, M> {
    /// The bean.
    pub fn get(&self) -> (bean: &'a B)
        ensures
            bean == self.instance,
    {
        self.instance
    }
}

/// A registered bean as the context holds it.
pub struct AutumnBeanInstanceInner<B, P, M> {
    pointer: UnknownPointer<B>,
    descriptor: Arc<AutumnBeanInstanceDescriptor<P, M>>,
}

impl<B, P, M> AutumnBeanInstanceInner<B, P, M> {
    /// The bean.
    pub closed spec fn spec_bean(&self) -> B {
        self.pointer@
    }

    /// The capabilities that the bean exposes.
    pub closed spec fn spec_descriptor(&self) -> AutumnBeanInstanceDescriptor<P, M> {
        *self.descriptor
    }

    /// A registered bean from its handle and the capabilities that it exposes.
    pub fn new(
        pointer: UnknownPointer<B>,
        descriptor: Arc<AutumnBeanInstanceDescriptor<P, M>>,
    ) -> (inner: Self)
        ensures
            inner.spec_bean() == pointer@,
            inner.spec_descriptor() == *descriptor,
    {
        AutumnBeanInstanceInner { pointer, descriptor }
    }

    /// The bean, lent for as long as the context is.
    pub fn get_reference(&self) -> (bean: &B)
        ensures
            *bean == self.spec_bean(),
    {
        self.pointer.get()
    }

    /// The bean as a caller sees it.
    pub fn get_outer(&self) -> (outer: AutumnBeanInstance<'_, B, P, M>)
        ensures
            *outer.instance == self.spec_bean(),
            *outer.descriptor == self.spec_descriptor(),
    {
        AutumnBeanInstance { instance: self.pointer.get(), descriptor: share(&self.descriptor) }
    }
}

/// What a slot of a context holds.
pub enum AutumnBeanSource<B, C, P, M> {
    /// A factory that has not run.
    Creator(C),
    /// A bean.
    Instance(AutumnBeanInstanceInner<B, P, M>),
}

/// What a slot of a context holds, as contracts see it.
pub enum BeanSourceView<B, C, P, M> {
    /// A factory that has not run.
    Creator(C),
    /// A bean, with the capabilities that it exposes.
    Instance(B, AutumnBeanInstanceDescriptor<P, M>),
}

impl<B, C, P, M> View for AutumnBeanSource<B, C, P, M> {
    type V = BeanSourceView<B, C, P, M>;

    open spec fn view(&self) -> BeanSourceView<B, C, P, M> {
        match self {
            AutumnBeanSource::Creator(creator) => BeanSourceView::Creator(*creator),
            AutumnBeanSource::Instance(inner) => BeanSourceView::Instance(
                inner.spec_bean(),
                inner.spec_descriptor(),
            ),
        }
    }
}

/// The registry: for each bean type and name at most one source, a pending
/// factory or a bean; the capabilities that the registered beans expose; and
/// optionally a parent, in which lookups go on when they find no bean here.
pub struct AutumnContext<B, C, P, M> {
    parent: Option<Arc<AutumnContext<B, C, P, M>>>,
    bean_sources: AutumnBeanMap<AutumnBeanSource<B, C, P, M>>,
    context_descriptor: AutumnContextDescriptor<B, P, M>,
}

impl<B, C, P, M> AutumnContext<B, C, P, M> {
    /// The storage is well formed. This holds of every context that a program
    /// holds.
    #[verifier::type_invariant]
    pub closed spec fn wf(&self) -> bool {
        self.bean_sources.wf()
    }

    /// The parent, if the context has one.
    pub closed spec fn spec_parent(&self) -> Option<AutumnContext<B, C, P, M>> {
        match self.parent {
            Some(parent) => Some(*parent),
            None => None,
        }
    }

    /// What the slot for the bean type with this key and this name holds in
    /// this context itself.
    pub closed spec fn spec_source(&self, key: u64, name: SlotName) -> Option<
        BeanSourceView<B, C, P, M>,
    > {
        match self.bean_sources.spec_entry(key, name) {
            Some(source) => Some(source@),
            None => None,
        }
    }

    /// The bean that this context itself holds in the slot, with its
    /// capabilities.
    pub open spec fn spec_local_instance(&self, key: u64, name: SlotName) -> Option<
        (B, AutumnBeanInstanceDescriptor<P, M>),
    > {
        match self.spec_source(key, name) {
            Some(BeanSourceView::Instance(bean, descriptor)) => Some((bean, descriptor)),
            _ => None,
        }
    }

    /// Whether this context itself holds a pending factory in the slot.
    pub open spec fn spec_pending(&self, key: u64, name: SlotName) -> bool {
        self.spec_source(key, name) matches Some(BeanSourceView::Creator(_))
    }

    /// The bean that a lookup finds: the one that this context holds in the
    /// slot; none where the slot holds a pending factory; and where the slot
    /// is empty, the one that a lookup in the parent finds.
    pub closed spec fn spec_instance(&self, key: u64, name: SlotName) -> Option<
        (B, AutumnBeanInstanceDescriptor<P, M>),
    >
        decreases self,
    {
        match self.spec_source(key, name) {
            Some(BeanSourceView::Instance(bean, descriptor)) => Some((bean, descriptor)),
            Some(BeanSourceView::Creator(_)) => None,
            None => match self.parent {
                Some(parent) => parent.spec_instance(key, name),
                None => None,
            },
        }
    }

    /// The beans registered for the capability with this key, each with the way
    /// to invoke it, in the order of registration.
    pub closed spec fn spec_calls(&self, capability: u64) -> Seq<
        (B, AutumnBeanInstanceMethodDescriptorInner<P, M>),
    > {
        self.context_descriptor.spec_calls(capability)
    }

    /// Those of `slots` that hold a pending factory, in their order.
    pub open spec fn pending_among(&self, slots: Seq<(u64, SlotName)>) -> Seq<(u64, SlotName)>
        decreases slots.len(),
    {
        if slots.len() == 0 {
            Seq::empty()
        } else {
            let earlier = self.pending_among(slots.drop_last());
            if self.spec_pending(slots.last().0, slots.last().1) {
                earlier.push(slots.last())
            } else {
                earlier
            }
        }
    }

    /// The slots that hold a pending factory, in the order in which the
    /// storage lists its slots: the bean types in the order in which they were
    /// first addressed, and for each the unnamed slot first, then the names in
    /// the order in which they were first filled.
    pub closed spec fn spec_creators(&self) -> Seq<(u64, SlotName)> {
        self.pending_among(self.bean_sources.spec_entries())
    }

    /// `pending_among` keeps exactly those of `slots` that hold a pending
    /// factory.
    pub proof fn lemma_pending_among(&self, slots: Seq<(u64, SlotName)>, key: u64, name: SlotName)
        ensures
            self.pending_among(slots).contains((key, name)) <==> slots.contains((key, name))
                && self.spec_pending(key, name),
        decreases slots.len(),
    {
        if slots.len() > 0 {
            let rest = slots.drop_last();
            let kept = self.pending_among(rest);
            self.lemma_pending_among(rest, key, name);
            if slots.contains((key, name)) {
                let at = choose|at: int| 0 <= at < slots.len() && slots[at] == (key, name);
                if at < rest.len() {
                    assert(rest[at] == (key, name));
                }
            }
            if rest.contains((key, name)) {
                let at = choose|at: int| 0 <= at < rest.len() && rest[at] == (key, name);
                assert(slots[at] == (key, name));
            }
            assert(slots[slots.len() - 1] == slots.last());
            if self.spec_pending(slots.last().0, slots.last().1) {
                let all = kept.push(slots.last());
                assert(all[kept.len() as int] == slots.last());
                if kept.contains((key, name)) {
                    let at = choose|at: int| 0 <= at < kept.len() && kept[at] == (key, name);
                    assert(all[at] == (key, name));
                }
                if all.contains((key, name)) {
                    let at = choose|at: int| 0 <= at < all.len() && all[at] == (key, name);
                    if at < kept.len() {
                        assert(kept[at] == (key, name));
                    }
                }
            }
        }
    }

    /// `spec_creators` lists exactly the slots that hold a pending factory.
    pub proof fn lemma_creators(&self, key: u64, name: SlotName)
        requires
            self.wf(),
        ensures
            self.spec_creators().contains((key, name)) <==> self.spec_pending(key, name),
    {
        self.lemma_pending_among(self.bean_sources.spec_entries(), key, name);
        self.bean_sources.lemma_entries(key, name);
    }

    /// A lookup finds the bean that this context holds in the slot, and
    /// nothing where the slot holds a pending factory. Only where the slot is
    /// empty it finds what a lookup in the parent finds, and nothing without a
    /// parent.
    pub proof fn lemma_lookup_falls_back(&self, key: u64, name: SlotName)
        ensures
            self.spec_instance(key, name) == match self.spec_source(key, name) {
                Some(BeanSourceView::Instance(bean, descriptor)) => Some((bean, descriptor)),
                Some(BeanSourceView::Creator(_)) => None,
                None => match self.spec_parent() {
                    Some(parent) => parent.spec_instance(key, name),
                    None => None,
                },
            },
    {
    }

    /// A context without a parent that holds nothing.
    pub fn new() -> (context: Self)
        ensures
            context.spec_parent() is None,
            forall|key: u64, name: SlotName| (#[trigger] context.spec_source(key, name)) is None,
            forall|capability: u64| (#[trigger] context.spec_calls(capability)).len() == 0,
    {
        AutumnContext {
            parent: None,
            bean_sources: AutumnBeanMap::new(),
            context_descriptor: AutumnContextDescriptor::new(),
        }
    }

    /// A context that holds nothing itself and falls back to `parent`.
    pub fn with_parent(parent: Arc<AutumnContext<B, C, P, M>>) -> (context: Self)
        ensures
            context.spec_parent() == Some(*parent),
            forall|key: u64, name: SlotName| (#[trigger] context.spec_source(key, name)) is None,
            forall|capability: u64| (#[trigger] context.spec_calls(capability)).len() == 0,
    {
        AutumnContext {
            parent: Some(parent),
            bean_sources: AutumnBeanMap::new(),
            context_descriptor: AutumnContextDescriptor::new(),
        }
    }
}

impl<B, C, P, M> AutumnContext<B, C, P, M> {
    /// Every slot holds in `self` what it holds in `before`.
    pub open spec fn same_sources(&self, before: Self) -> bool {
        forall|k: u64, n: SlotName| (#[trigger] self.spec_source(k, n)) == before.spec_source(k, n)
    }

    /// Every slot but the one for `key` and `name` holds in `self` what it
    /// holds in `before`.
    pub open spec fn same_sources_but(&self, before: Self, key: u64, name: SlotName) -> bool {
        forall|k: u64, n: SlotName|
            (k != key || n != name) ==> (#[trigger] self.spec_source(k, n)) == before.spec_source(
                k,
                n,
            )
    }

    /// The same beans are registered for every capability in `self` as in
    /// `before`.
    pub open spec fn same_calls(&self, before: Self) -> bool {
        forall|c: u64| (#[trigger] self.spec_calls(c)) == before.spec_calls(c)
    }

    /// What registering a bean does: `self` is the context after `before`, and
    /// `result` what the registration returned. The bean is refused where the
    /// slot already holds a bean, and the context then stays as it is. Else the
    /// bean takes the slot, also from a pending factory, and its capabilities
    /// are registered after those that are.
    pub open spec fn instance_added(
        &self,
        before: Self,
        key: u64,
        name: SlotName,
        bean: B,
        descriptor: AutumnBeanInstanceDescriptor<P, M>,
        result: AutumnResult<()>,
    ) -> bool {
        if before.spec_local_instance(key, name) is Some {
            &&& result == Err::<(), AutumnError>(AutumnError::BeanAlreadyExist)
            &&& *self == before
        } else {
            &&& result == Ok::<(), AutumnError>(())
            &&& self.spec_parent() == before.spec_parent()
            &&& forall|c: u64| (#[trigger] self.spec_calls(c)) == before.spec_calls(c).add(
                    bound(bean, descriptor.spec_methods(c)),
                )
            &&& self.spec_source(key, name) == Some(
                BeanSourceView::<B, C, P, M>::Instance(bean, descriptor),
            )
            &&& self.same_sources_but(before, key, name)
        }
    }

    /// What registering a factory does: it is refused where the slot holds
    /// anything, a bean or a factory, and the context is then as before; else
    /// it takes the slot, unexecuted.
    pub open spec fn creator_added(
        &self,
        before: Self,
        key: u64,
        name: SlotName,
        creator: C,
        result: AutumnResult<()>,
    ) -> bool {
        &&& self.spec_parent() == before.spec_parent()
        &&& self.same_calls(before)
        &&& if before.spec_source(key, name) is Some {
            &&& result == Err::<(), AutumnError>(AutumnError::BeanAlreadyExist)
            &&& *self == before
        } else {
            &&& result == Ok::<(), AutumnError>(())
            &&& self.spec_source(key, name) == Some(BeanSourceView::<B, C, P, M>::Creator(creator))
            &&& self.same_sources_but(before, key, name)
        }
    }

    /// What taking a pending factory out of its slot does: the slot is empty
    /// afterwards. Where the slot holds no pending factory, nothing is taken
    /// and the context is as before.
    pub open spec fn creator_taken(
        &self,
        before: Self,
        key: u64,
        name: SlotName,
        taken: Option<C>,
    ) -> bool {
        &&& self.spec_parent() == before.spec_parent()
        &&& self.same_calls(before)
        &&& match before.spec_source(key, name) {
            Some(BeanSourceView::Creator(creator)) => {
                &&& taken == Some(creator)
                &&& self.spec_source(key, name) is None
                &&& self.same_sources_but(before, key, name)
            },
            _ => taken is None && *self == before,
        }
    }

    /// What filing the outcome of a factory does: a bean is registered as
    /// `instance_added` says; an error is handed on, and the context stays as
    /// it is.
    pub open spec fn created_bean_added(
        &self,
        before: Self,
        key: u64,
        name: SlotName,
        created: AutumnResult<AutumnBeanCreationData<B, P, M>>,
        result: AutumnResult<()>,
    ) -> bool {
        match created {
            Ok(data) => self.instance_added(
                before,
                key,
                name,
                *data.bean,
                *data.descriptor,
                result,
            ),
            Err(error) => result == Err::<(), AutumnError>(error) && *self == before,
        }
    }

    /// What a lookup returns: the bean that `spec_instance` gives, and where it
    /// gives none, the error that names the type and the slot.
    pub open spec fn lookup_result<'a>(
        &self,
        key: u64,
        name: SlotName,
        label: &'static str,
        result: AutumnResult<AutumnBeanInstance<'a, B, P, M>>,
    ) -> bool {
        match self.spec_instance(key, name) {
            Some((bean, descriptor)) => result matches Ok(outer) && *outer.instance == bean
                && *outer.descriptor == descriptor,
            None => result matches Err(error) && error.missing_type() == Some(label)
                && error.missing_name() == Some(name),
        }
    }

    /// As `lookup_result`, for a lookup that returns the bean alone.
    pub open spec fn lookup_reference<'a>(
        &self,
        key: u64,
        name: SlotName,
        label: &'static str,
        result: AutumnResult<&'a B>,
    ) -> bool {
        match self.spec_instance(key, name) {
            Some((bean, descriptor)) => result matches Ok(found) && *found == bean,
            None => result matches Err(error) && error.missing_type() == Some(label)
                && error.missing_name() == Some(name),
        }
    }

    /// A bean that was registered is found by a lookup at once, and a second
    /// bean for the same type and name is then refused, whatever it is, and
    /// leaves the context as it is.
    pub proof fn lemma_registered_bean_is_found(
        before: Self,
        after: Self,
        key: u64,
        name: SlotName,
        bean: B,
        descriptor: AutumnBeanInstanceDescriptor<P, M>,
        result: AutumnResult<()>,
    )
        requires
            after.instance_added(before, key, name, bean, descriptor, result),
            result is Ok,
        ensures
            after.spec_instance(key, name) == Some((bean, descriptor)),
            forall|
                later: Self,
                second: B,
                exposes: AutumnBeanInstanceDescriptor<P, M>,
                refused: AutumnResult<()>,
            | #[trigger]
                later.instance_added(after, key, name, second, exposes, refused) ==> refused == Err::<
                    (),
                    AutumnError,
                >(AutumnError::BeanAlreadyExist) && later == after,
    {
        after.lemma_lookup_falls_back(key, name);
    }

    /// A factory that was registered is pending, and is not run by a lookup:
    /// the lookup finds no bean, whatever the parent holds.
    pub proof fn lemma_pending_factory_is_not_found(
        before: Self,
        after: Self,
        key: u64,
        name: SlotName,
        creator: C,
        result: AutumnResult<()>,
    )
        requires
            after.creator_added(before, key, name, creator, result),
            result is Ok,
        ensures
            after.spec_pending(key, name),
            after.spec_instance(key, name) is None,
    {
        after.lemma_lookup_falls_back(key, name);
    }

    /// Once what a factory returned was filed, the slot holds the bean and no
    /// factory: a later computation finds the bean and runs nothing.
    pub proof fn lemma_filed_bean_replaces_factory(
        before: Self,
        after: Self,
        key: u64,
        name: SlotName,
        bean: B,
        descriptor: AutumnBeanInstanceDescriptor<P, M>,
        result: AutumnResult<()>,
    )
        requires
            after.instance_added(before, key, name, bean, descriptor, result),
            result is Ok,
        ensures
            !after.spec_pending(key, name),
            after.spec_local_instance(key, name) == Some((bean, descriptor)),
            after.spec_instance(key, name) == Some((bean, descriptor)),
    {
        after.lemma_lookup_falls_back(key, name);
    }

    /// While a factory runs, its slot is empty: the factory was taken out of
    /// it before. A lookup of the slot made meanwhile finds what a lookup in
    /// the parent finds, and so nothing where the context has no parent.
    pub proof fn lemma_running_factory_left_its_slot(
        before: Self,
        after: Self,
        key: u64,
        name: SlotName,
        taken: Option<C>,
    )
        requires
            after.creator_taken(before, key, name, taken),
            before.spec_pending(key, name),
        ensures
            taken is Some,
            after.spec_source(key, name) is None,
            !after.spec_pending(key, name),
            after.spec_instance(key, name) == match after.spec_parent() {
                Some(parent) => parent.spec_instance(key, name),
                None => None,
            },
            after.spec_parent() is None ==> after.spec_instance(key, name) is None,
    {
        after.lemma_lookup_falls_back(key, name);
    }

    /// Registering a bean in a context changes nothing in its parent, and what
    /// the context finds for any other slot is what it found before.
    pub proof fn lemma_registration_stays_local(
        before: Self,
        after: Self,
        key: u64,
        name: SlotName,
        bean: B,
        descriptor: AutumnBeanInstanceDescriptor<P, M>,
        result: AutumnResult<()>,
        other_key: u64,
        other_name: SlotName,
    )
        requires
            after.instance_added(before, key, name, bean, descriptor, result),
            other_key != key || other_name != name,
        ensures
            after.spec_parent() == before.spec_parent(),
            after.spec_instance(other_key, other_name) == before.spec_instance(
                other_key,
                other_name,
            ),
    {
        after.lemma_lookup_falls_back(other_key, other_name);
        before.lemma_lookup_falls_back(other_key, other_name);
    }

    fn find_instance(&self, key: u64, name: Option<&'static str>) -> (found: Option<
        &AutumnBeanInstanceInner<B, P, M>,
    >)
        ensures
            match found {
                Some(inner) => self.spec_instance(key, name_view(name)) == Some(
                    (inner.spec_bean(), inner.spec_descriptor()),
                ),
                None => self.spec_instance(key, name_view(name)) is None,
            },
        decreases self,
    {
        proof {
            use_type_invariant(self);
        }
        match self.bean_sources.lookup(key, name) {
            Some(AutumnBeanSource::Instance(inner)) => Some(inner),
            Some(AutumnBeanSource::Creator(_)) => None,
            None => match &self.parent {
                Some(parent) => parent.find_instance(key, name),
                None => None,
            },
        }
    }

    /// Puts `source` into the slot, in place of what the slot holds.
    fn store_source(
        &mut self,
        key: u64,
        name: Option<&'static str>,
        source: AutumnBeanSource<B, C, P, M>,
    )
        ensures
            final(self).spec_parent() == old(self).spec_parent(),
            final(self).same_calls(*old(self)),
            final(self).spec_source(key, name_view(name)) == Some(source@),
            final(self).same_sources_but(*old(self), key, name_view(name)),
    {
        proof {
            use_type_invariant(&*self);
        }
        let mut sources = AutumnBeanMap::new();
        std::mem::swap(&mut self.bean_sources, &mut sources);
        sources.store(key, name, source);
        std::mem::swap(&mut self.bean_sources, &mut sources);
    }

    fn insert_instance(
        &mut self,
        key: u64,
        name: Option<&'static str>,
        bean: UnknownPointer<B>,
        descriptor: Arc<AutumnBeanInstanceDescriptor<P, M>>,
    ) -> (result: AutumnResult<()>)
        ensures
            final(self).instance_added(
                *old(self),
                key,
                name_view(name),
                bean@,
                *descriptor,
                result,
            ),
    {
        proof {
            use_type_invariant(&*self);
        }
        let occupied = match self.bean_sources.lookup(key, name) {
            Some(AutumnBeanSource::Instance(_)) => true,
            _ => false,
        };
        if occupied {
            Err(AutumnError::BeanAlreadyExist)
        } else {
            let mut table = AutumnContextDescriptor::new();
            std::mem::swap(&mut self.context_descriptor, &mut table);
            table.merge(&bean, &*descriptor);
            std::mem::swap(&mut self.context_descriptor, &mut table);
            self.store_source(
                key,
                name,
                AutumnBeanSource::Instance(AutumnBeanInstanceInner::new(bean, descriptor)),
            );
            Ok(())
        }
    }

    /// Registers a bean of the type `T` under `name`, with the capabilities
    /// that it exposes.
    pub fn add_pointer_bean_instance<T: AutumnBean>(
        &mut self,
        bean: UnknownPointer<B>,
        name: Option<&'static str>,
        descriptor: Arc<AutumnBeanInstanceDescriptor<P, M>>,
    ) -> (result: AutumnResult<()>)
        ensures
            final(self).instance_added(
                *old(self),
                T::IDENTIFIER,
                name_view(name),
                bean@,
                *descriptor,
                result,
            ),
    {
        self.insert_instance(autumn_id::<T>(), name, bean, descriptor)
    }

    /// Registers a heap-allocated bean of the type `T` under `name`, with the
    /// capabilities that it exposes. The context owns the bean from then on.
    pub fn add_bean_instance<T: AutumnBean>(
        &mut self,
        bean: Box<B>,
        name: Option<&'static str>,
        descriptor: Arc<AutumnBeanInstanceDescriptor<P, M>>,
    ) -> (result: AutumnResult<()>)
        ensures
            final(self).instance_added(
                *old(self),
                T::IDENTIFIER,
                name_view(name),
                *bean,
                *descriptor,
                result,
            ),
    {
        self.insert_instance(autumn_id::<T>(), name, UnknownPointer::new(bean), descriptor)
    }

    /// Registers a factory for the bean of the type `T` under `name`. The
    /// factory is stored and not run.
    pub fn add_bean_creator<T: AutumnBean>(
        &mut self,
        creator: C,
        name: Option<&'static str>,
    ) -> (result: AutumnResult<()>)
        ensures
            final(self).creator_added(*old(self), T::IDENTIFIER, name_view(name), creator, result),
    {
        proof {
            use_type_invariant(&*self);
        }
        let key = autumn_id::<T>();
        if self.bean_sources.lookup(key, name).is_some() {
            Err(AutumnError::BeanAlreadyExist)
        } else {
            self.store_source(key, name, AutumnBeanSource::Creator(creator));
            Ok(())
        }
    }

    /// Takes the pending factory for the bean type with this key out of the
    /// slot `name`. A lookup or a computation of the same slot that is made
    /// while the factory runs therefore finds the slot empty.
    pub fn take_bean_creator(&mut self, key: u64, name: Option<&'static str>) -> (taken: Option<C>)
        ensures
            final(self).creator_taken(*old(self), key, name_view(name), taken),
    {
        proof {
            use_type_invariant(&*self);
        }
        let pending = match self.bean_sources.lookup(key, name) {
            Some(AutumnBeanSource::Creator(_)) => true,
            _ => false,
        };
        if pending {
            let mut sources = AutumnBeanMap::new();
            std::mem::swap(&mut self.bean_sources, &mut sources);
            let taken = sources.take(key, name);
            std::mem::swap(&mut self.bean_sources, &mut sources);
            match taken {
                Some(AutumnBeanSource::Creator(creator)) => Some(creator),
                _ => None,
            }
        } else {
            None
        }
    }

    /// Files what a factory returned for the slot `name` of the bean type with
    /// this key: the bean is registered as by `add_bean_instance`; an error is
    /// handed on, and the context stays as it is.
    pub fn add_created_bean(
        &mut self,
        key: u64,
        name: Option<&'static str>,
        created: AutumnResult<AutumnBeanCreationData<B, P, M>>,
    ) -> (result: AutumnResult<()>)
        ensures
            final(self).created_bean_added(*old(self), key, name_view(name), created, result),
    {
        match created {
            Ok(data) => self.insert_instance(
                key,
                name,
                UnknownPointer::new(data.bean),
                data.descriptor,
            ),
            Err(error) => Err(error),
        }
    }

    /// A call handle for every bean that is registered for the capability
    /// `MT` when the call is made, in the order of registration. Each handle
    /// leads to the bean and, with shared access, to this context.
    pub fn get_methods<MT: AutumnBeanInstanceMethodType>(&self) -> (calls: Vec<
        AutumnBeanInstanceMethodCall<'_, B, C, P, M>,
    >)
        ensures
            calls@.len() == self.spec_calls(MT::IDENTIFIER).len(),
            forall|i: int|
                0 <= i < calls@.len() ==> {
                    let call = #[trigger] calls@[i];
                    &&& call.reference.spec_bean() == self.spec_calls(MT::IDENTIFIER)[i].0
                    &&& *call.descriptor == self.spec_calls(MT::IDENTIFIER)[i].1
                    &&& !call.reference.spec_mutable()
                    &&& call.reference.spec_context() == *self
                },
    {
        let capability = autumn_id::<MT>();
        let mut calls: Vec<AutumnBeanInstanceMethodCall<'_, B, C, P, M>> = Vec::new();
        let count = self.context_descriptor.len();
        let ghost entries = self.context_descriptor.spec_entries();
        let mut i: usize = 0;
        while i < count
            invariant
                i <= count,
                count == entries.len(),
                entries == self.context_descriptor.spec_entries(),
                calls@.len() == selected(entries.take(i as int), capability).len(),
                forall|k: int|
                    0 <= k < calls@.len() ==> {
                        let call = #[trigger] calls@[k];
                        let listed = selected(entries.take(i as int), capability)[k];
                        &&& call.reference.spec_bean() == listed.0
                        &&& *call.descriptor == listed.1
                        &&& !call.reference.spec_mutable()
                        &&& call.reference.spec_context() == *self
                    },
            decreases count - i,
        {
            let (key, bean, descriptor) = self.context_descriptor.entry(i);
            proof {
                assert(entries.take(i + 1) =~= entries.take(i as int).push(entries[i as int]));
                lemma_selected_push(entries.take(i as int), entries[i as int], capability);
            }
            if key == capability {
                calls.push(
                    AutumnBeanInstanceMethodCall {
                        reference: AutumnBeanInstanceMethodReference::new(bean.share(), self),
                        descriptor,
                    },
                );
            }
            i += 1;
        }
        proof {
            assert(entries.take(count as int) =~= entries);
        }
        calls
    }

    /// The slots that hold a pending factory, in the order of
    /// `spec_creators`: a slot is listed if and only if it holds a pending
    /// factory.
    pub fn creators(&self) -> (list: Vec<(u64, Option<&'static str>)>)
        ensures
            slots_view(list@) == self.spec_creators(),
            forall|i: int|
                0 <= i < list@.len() ==> self.spec_pending(
                    (#[trigger] list@[i]).0,
                    name_view(list@[i].1),
                ),
            forall|key: u64, name: SlotName|
                (#[trigger] self.spec_source(key, name)) matches Some(BeanSourceView::Creator(_))
                    ==> lists(list@, key, name),
    {
        proof {
            use_type_invariant(self);
        }
        let occupied = self.bean_sources.entries();
        let mut list: Vec<(u64, Option<&'static str>)> = Vec::new();
        let mut i: usize = 0;
        let ghost slots = slots_view(occupied@);
        proof {
            assert(slots_view(list@) =~= self.pending_among(slots.take(0)));
        }
        while i < occupied.len()
            invariant
                self.bean_sources.wf(),
                i <= occupied.len(),
                slots == slots_view(occupied@),
                slots == self.bean_sources.spec_entries(),
                slots_view(list@) == self.pending_among(slots.take(i as int)),
                forall|k: int|
                    0 <= k < list@.len() ==> self.spec_pending(
                        (#[trigger] list@[k]).0,
                        name_view(list@[k].1),
                    ),
                forall|k: int|
                    0 <= k < i && self.spec_pending(
                        (#[trigger] occupied@[k]).0,
                        name_view(occupied@[k].1),
                    ) ==> lists(list@, occupied@[k].0, name_view(occupied@[k].1)),
            decreases occupied.len() - i,
        {
            let (key, name) = occupied[i];
            let pending = match self.bean_sources.lookup(key, name) {
                Some(AutumnBeanSource::Creator(_)) => true,
                _ => false,
            };
            proof {
                assert(slots.take(i + 1).drop_last() =~= slots.take(i as int));
                assert(slots.take(i + 1).last() == (key, name_view(name)));
            }
            if pending {
                let ghost before = list@;
                list.push((key, name));
                proof {
                    assert(slots_view(list@) =~= slots_view(before).push((key, name_view(name))));
                    assert forall|k: int|
                        0 <= k < i + 1 && self.spec_pending(
                            (#[trigger] occupied@[k]).0,
                            name_view(occupied@[k].1),
                        ) implies lists(list@, occupied@[k].0, name_view(occupied@[k].1)) by {
                        lemma_lists_push(
                            before,
                            (key, name),
                            occupied@[k].0,
                            name_view(occupied@[k].1),
                        );
                    }
                }
            }
            i += 1;
        }
        proof {
            assert(slots.take(occupied@.len() as int) =~= slots);
            assert forall|key: u64, name: SlotName|
                (#[trigger] self.spec_source(key, name)) matches Some(
                    BeanSourceView::Creator(_),
                ) implies lists(list@, key, name) by {
                assert(self.bean_sources.spec_entry(key, name) is Some);
                assert(lists(occupied@, key, name));
                let at = choose|at: int|
                    0 <= at < occupied@.len() && (#[trigger] occupied@[at]).0 == key && name_view(
                        occupied@[at].1,
                    ) == name;
                assert(self.spec_pending(occupied@[at].0, name_view(occupied@[at].1)));
            }
        }
        list
    }

    /// Finds the bean of the type `T` under `name` in the parent.
    pub fn get_parent_bean_instance<T: AutumnBean>(&self, name: Option<&'static str>) -> (result:
        AutumnResult<AutumnBeanInstance<'_, B, P, M>>)
        ensures
            match self.spec_parent() {
                Some(parent) => parent.lookup_result(
                    T::IDENTIFIER,
                    name_view(name),
                    T::NAME,
                    result,
                ),
                None => result matches Err(error) && error.missing_type() == Some(T::NAME)
                    && error.missing_name() == Some(name_view(name)),
            },
    {
        match &self.parent {
            Some(parent) => parent.get_bean_instance::<T>(name),
            None => Err(AutumnError::bean_not_exist::<T>(name)),
        }
    }

    /// Finds the bean of the type `T` under `name`: the one registered here.
    /// A pending factory is not run, and the lookup then finds nothing. Only
    /// where the slot is empty the lookup goes on in the parent.
    pub fn get_bean_instance<T: AutumnBean>(&self, name: Option<&'static str>) -> (result:
        AutumnResult<AutumnBeanInstance<'_, B, P, M>>)
        ensures
            self.lookup_result(T::IDENTIFIER, name_view(name), T::NAME, result),
    {
        match self.find_instance(autumn_id::<T>(), name) {
            Some(inner) => Ok(inner.get_outer()),
            None => Err(AutumnError::bean_not_exist::<T>(name)),
        }
    }

    /// As `get_bean_instance`, for the bean alone.
    pub fn get_bean_instance_reference<T: AutumnBean>(&self, name: Option<&'static str>) -> (result:
        AutumnResult<&B>)
        ensures
            self.lookup_reference(T::IDENTIFIER, name_view(name), T::NAME, result),
    {
        match self.find_instance(autumn_id::<T>(), name) {
            Some(inner) => Ok(inner.get_reference()),
            None => Err(AutumnError::bean_not_exist::<T>(name)),
        }
    }
}

impl<B, C: AutumnBeanCreator<B, P, M>, P, M> AutumnContext<B, C, P, M> {
    /// What running a factory for the slot of `key` and `name` does: the
    /// factory works on the context `before` as `creates` allows, and what it
    /// returns is filed in the context that it leaves.
    pub open spec fn creator_called(
        &self,
        before: Self,
        creator: C,
        key: u64,
        name: SlotName,
        result: AutumnResult<()>,
    ) -> bool {
        exists|left: Self, created: AutumnResult<AutumnBeanCreationData<B, P, M>>|
            #![trigger creator.creates(before, left, created)]
            creator.creates(before, left, created) && self.created_bean_added(
                left,
                key,
                name,
                created,
                result,
            )
    }

    /// What making the slot of `key` and `name` ready does. Where the slot
    /// holds a pending factory, the factory is taken out of the slot, then
    /// run, and what it returns is filed; `outcome` is `Ok`, or the error of
    /// the factory or of the filing. Where the slot holds no pending factory,
    /// the context stays as it is and the outcome is `Ok`.
    pub open spec fn prepared(
        &self,
        before: Self,
        key: u64,
        name: SlotName,
        outcome: AutumnResult<()>,
    ) -> bool {
        match before.spec_source(key, name) {
            Some(BeanSourceView::Creator(creator)) => exists|vacated: Self|
                #![trigger self.creator_called(vacated, creator, key, name, outcome)]
                vacated.creator_taken(before, key, name, Some(creator)) && self.creator_called(
                    vacated,
                    creator,
                    key,
                    name,
                    outcome,
                ),
            _ => *self == before && outcome == Ok::<(), AutumnError>(()),
        }
    }

    /// What making the slots `slots` ready in turn does, where no turn fails.
    pub open spec fn prepared_all(&self, before: Self, slots: Seq<(u64, SlotName)>) -> bool
        decreases slots.len(),
    {
        if slots.len() == 0 {
            *self == before
        } else {
            exists|earlier: Self|
                #![trigger self.prepared(earlier, slots.last().0, slots.last().1, Ok::<(), AutumnError>(()))]
                earlier.prepared_all(before, slots.drop_last()) && self.prepared(
                    earlier,
                    slots.last().0,
                    slots.last().1,
                    Ok::<(), AutumnError>(()),
                )
        }
    }

    /// Runs a factory that was taken out of the slot `name` of the bean type
    /// with this key, and files what it returns as `add_created_bean` does.
    /// The factory works on this context and may change it.
    pub fn call_creator(&mut self, creator: C, key: u64, name: Option<&'static str>) -> (result:
        AutumnResult<()>)
        ensures
            final(self).creator_called(*old(self), creator, key, name_view(name), result),
    {
        let created = creator.create_instance(self);
        self.add_created_bean(key, name, created)
    }

    /// Where a slot that held a pending factory was made ready without an
    /// error, it holds a bean, and a lookup finds that bean.
    pub proof fn lemma_prepared_slot_holds_bean(
        before: Self,
        after: Self,
        key: u64,
        name: SlotName,
    )
        requires
            after.prepared(before, key, name, Ok::<(), AutumnError>(())),
            before.spec_pending(key, name),
        ensures
            after.spec_local_instance(key, name) is Some,
            after.spec_instance(key, name) == after.spec_local_instance(key, name),
            !after.spec_pending(key, name),
    {
        let outcome = Ok::<(), AutumnError>(());
        let creator = before.spec_source(key, name)->Some_0->Creator_0;
        let vacated = choose|vacated: Self|
            #![trigger after.creator_called(vacated, creator, key, name, outcome)]
            vacated.creator_taken(before, key, name, Some(creator)) && after.creator_called(
                vacated,
                creator,
                key,
                name,
                outcome,
            );
        let (left, created) = choose|
            left: Self,
            created: AutumnResult<AutumnBeanCreationData<B, P, M>>,
        |
            #![trigger creator.creates(vacated, left, created)]
            creator.creates(vacated, left, created) && after.created_bean_added(
                left,
                key,
                name,
                created,
                outcome,
            );
        after.lemma_lookup_falls_back(key, name);
    }

    /// Whether `self` still has what `before` had: every bean of `before` is
    /// still in its slot, and every slot in which `before` held a pending
    /// factory holds that factory or a bean.
    pub open spec fn keeps_progress_of(&self, before: Self) -> bool {
        &&& forall|k: u64, n: SlotName|
            (#[trigger] before.spec_local_instance(k, n)) is Some ==> self.spec_source(k, n)
                == before.spec_source(k, n)
        &&& forall|k: u64, n: SlotName|
            #[trigger] before.spec_pending(k, n) ==> self.spec_source(k, n) == before.spec_source(
                k,
                n,
            ) || self.spec_local_instance(k, n) is Some
    }

    /// Whether the factory, run for the slot of `key` and `name`, leaves that
    /// slot as it got it, whatever else it does.
    pub open spec fn factory_leaves_slot(creator: C, key: u64, name: SlotName) -> bool {
        forall|
            before: Self,
            after: Self,
            created: AutumnResult<AutumnBeanCreationData<B, P, M>>,
        | #[trigger]
            creator.creates(before, after, created) ==> after.spec_source(key, name)
                == before.spec_source(key, name)
    }

    /// Whether the factory, run for the slot of `key` and `name`, succeeds,
    /// keeps every bean, keeps or has materialized every pending factory, and
    /// puts no bean into its own slot. It may register beans and factories
    /// elsewhere, and compute the beans that it depends on.
    pub open spec fn factory_succeeds_for(creator: C, key: u64, name: SlotName) -> bool {
        forall|
            before: Self,
            after: Self,
            created: AutumnResult<AutumnBeanCreationData<B, P, M>>,
        | #[trigger]
            creator.creates(before, after, created) ==> {
                &&& created is Ok
                &&& after.keeps_progress_of(before)
                &&& before.spec_source(key, name) is None ==> after.spec_local_instance(
                    key,
                    name,
                ) is None
            }
    }

    /// Whether every pending factory of this context succeeds for its slot, as
    /// `factory_succeeds_for` says.
    pub open spec fn factories_succeed(&self) -> bool {
        forall|key: u64, name: SlotName| #[trigger]
            self.spec_pending(key, name) ==> Self::factory_succeeds_for(
                self.spec_source(key, name)->Some_0->Creator_0,
                key,
                name,
            )
    }

    /// Where a slot that held a pending factory was made ready with an error
    /// and the factory leaves its own slot as it got it, the slot is empty:
    /// the factory is lost and no bean is registered. A lookup finds what a
    /// lookup in the parent finds.
    pub proof fn lemma_failed_factory_leaves_slot_empty(
        before: Self,
        after: Self,
        key: u64,
        name: SlotName,
        error: AutumnError,
    )
        requires
            after.prepared(before, key, name, Err::<(), AutumnError>(error)),
            before.spec_source(key, name) matches Some(BeanSourceView::Creator(creator))
                && Self::factory_leaves_slot(creator, key, name),
        ensures
            after.spec_source(key, name) is None,
            after.spec_instance(key, name) == match after.spec_parent() {
                Some(parent) => parent.spec_instance(key, name),
                None => None,
            },
    {
        let outcome = Err::<(), AutumnError>(error);
        let creator = before.spec_source(key, name)->Some_0->Creator_0;
        let vacated = choose|vacated: Self|
            #![trigger after.creator_called(vacated, creator, key, name, outcome)]
            vacated.creator_taken(before, key, name, Some(creator)) && after.creator_called(
                vacated,
                creator,
                key,
                name,
                outcome,
            );
        let (left, created) = choose|
            left: Self,
            created: AutumnResult<AutumnBeanCreationData<B, P, M>>,
        |
            #![trigger creator.creates(vacated, left, created)]
            creator.creates(vacated, left, created) && after.created_bean_added(
                left,
                key,
                name,
                created,
                outcome,
            );
        assert(left.spec_source(key, name) == vacated.spec_source(key, name));
        after.lemma_lookup_falls_back(key, name);
    }

    /// What one turn for a slot that holds its first factory does, where that
    /// factory succeeds for the slot: the turn does not fail, the slot holds a
    /// bean, and the context keeps what it had.
    proof fn lemma_turn_succeeds(
        earlier: Self,
        after: Self,
        key: u64,
        name: SlotName,
        outcome: AutumnResult<()>,
    )
        requires
            after.prepared(earlier, key, name, outcome),
            earlier.spec_source(key, name) matches Some(BeanSourceView::Creator(creator))
                && Self::factory_succeeds_for(creator, key, name),
        ensures
            outcome is Ok,
            after.spec_local_instance(key, name) is Some,
            forall|k: u64, n: SlotName|
                (k != key || n != name) && (#[trigger] earlier.spec_local_instance(k, n)) is Some
                    ==> after.spec_source(k, n) == earlier.spec_source(k, n),
            forall|k: u64, n: SlotName|
                (k != key || n != name) && #[trigger] earlier.spec_pending(k, n)
                    ==> after.spec_source(k, n) == earlier.spec_source(k, n)
                    || after.spec_local_instance(k, n) is Some,
    {
        let creator = earlier.spec_source(key, name)->Some_0->Creator_0;
        let vacated = choose|vacated: Self|
            #![trigger after.creator_called(vacated, creator, key, name, outcome)]
            vacated.creator_taken(earlier, key, name, Some(creator)) && after.creator_called(
                vacated,
                creator,
                key,
                name,
                outcome,
            );
        let (left, created) = choose|
            left: Self,
            created: AutumnResult<AutumnBeanCreationData<B, P, M>>,
        |
            #![trigger creator.creates(vacated, left, created)]
            creator.creates(vacated, left, created) && after.created_bean_added(
                left,
                key,
                name,
                created,
                outcome,
            );
        assert(created is Ok);
        assert(left.keeps_progress_of(vacated));
        assert(left.spec_local_instance(key, name) is None);
        assert forall|k: u64, n: SlotName|
            (k != key || n != name) && (#[trigger] earlier.spec_local_instance(
                k,
                n,
            )) is Some implies after.spec_source(k, n) == earlier.spec_source(k, n) by {
            assert(vacated.spec_source(k, n) == earlier.spec_source(k, n));
            assert(vacated.spec_local_instance(k, n) is Some);
            assert(after.spec_source(k, n) == left.spec_source(k, n));
        }
        assert forall|k: u64, n: SlotName|
            (k != key || n != name) && #[trigger] earlier.spec_pending(
                k,
                n,
            ) implies after.spec_source(k, n) == earlier.spec_source(k, n)
            || after.spec_local_instance(k, n) is Some by {
            assert(vacated.spec_source(k, n) == earlier.spec_source(k, n));
            assert(vacated.spec_pending(k, n));
            assert(after.spec_source(k, n) == left.spec_source(k, n));
        }
    }

    proof fn lemma_prepared_all_keeps_progress(
        before: Self,
        after: Self,
        slots: Seq<(u64, SlotName)>,
        key: u64,
        name: SlotName,
    )
        requires
            after.prepared_all(before, slots),
            before.factories_succeed(),
            forall|i: int| 0 <= i < slots.len() ==> before.spec_pending(
                (#[trigger] slots[i]).0,
                slots[i].1,
            ),
            before.spec_pending(key, name),
        ensures
            after.spec_local_instance(key, name) is Some || (after.spec_source(key, name)
                == before.spec_source(key, name) && !slots.contains((key, name))),
        decreases slots.len(),
    {
        if slots.len() > 0 {
            let turn = slots.last();
            let rest = slots.drop_last();
            let earlier = choose|earlier: Self|
                #![trigger after.prepared(earlier, slots.last().0, slots.last().1, Ok::<(), AutumnError>(()))]
                earlier.prepared_all(before, slots.drop_last()) && after.prepared(
                    earlier,
                    slots.last().0,
                    slots.last().1,
                    Ok::<(), AutumnError>(()),
                );
            assert(slots[slots.len() - 1] == turn);
            assert forall|i: int| 0 <= i < rest.len() implies before.spec_pending(
                (#[trigger] rest[i]).0,
                rest[i].1,
            ) by {
                assert(rest[i] == slots[i]);
            }
            Self::lemma_prepared_all_keeps_progress(before, earlier, rest, key, name);
            Self::lemma_prepared_all_keeps_progress(before, earlier, rest, turn.0, turn.1);
            if slots.contains((key, name)) && turn != (key, name) {
                let at = choose|at: int| 0 <= at < slots.len() && slots[at] == (key, name);
                assert(rest[at] == (key, name));
            }
            if earlier.spec_pending(turn.0, turn.1) {
                assert(earlier.spec_source(turn.0, turn.1) == before.spec_source(turn.0, turn.1));
                Self::lemma_turn_succeeds(
                    earlier,
                    after,
                    turn.0,
                    turn.1,
                    Ok::<(), AutumnError>(()),
                );
            }
        }
    }

    /// Where every pending factory succeeds for its slot, making slots ready
    /// in turn that all held a pending factory at the start leaves a bean in
    /// each of them, and a lookup finds that bean.
    pub proof fn lemma_prepared_all_materializes(
        before: Self,
        after: Self,
        slots: Seq<(u64, SlotName)>,
        key: u64,
        name: SlotName,
    )
        requires
            after.prepared_all(before, slots),
            before.factories_succeed(),
            forall|i: int| 0 <= i < slots.len() ==> before.spec_pending(
                (#[trigger] slots[i]).0,
                slots[i].1,
            ),
            slots.contains((key, name)),
        ensures
            after.spec_local_instance(key, name) is Some,
            after.spec_instance(key, name) == after.spec_local_instance(key, name),
            !after.spec_pending(key, name),
    {
        let at = choose|at: int| 0 <= at < slots.len() && slots[at] == (key, name);
        assert(before.spec_pending(slots[at].0, slots[at].1));
        Self::lemma_prepared_all_keeps_progress(before, after, slots, key, name);
        after.lemma_lookup_falls_back(key, name);
    }

    /// What `compute_all_bean_instances` does: `self` is the context after
    /// `before`, and `result` what the call returned. Without an error, every
    /// slot that held a pending factory was made ready, in the order of
    /// `spec_creators`. With an error, the slots before some slot were made
    /// ready, and the turn for that slot failed with the error.
    pub open spec fn all_prepared(&self, before: Self, result: AutumnResult<()>) -> bool {
        match result {
            Ok(_) => self.prepared_all(before, before.spec_creators()),
            Err(error) => exists|turns: int, earlier: Self|
                #![trigger earlier.prepared_all(before, before.spec_creators().take(turns))]
                {
                    &&& 0 <= turns < before.spec_creators().len()
                    &&& earlier.prepared_all(before, before.spec_creators().take(turns))
                    &&& self.prepared(
                        earlier,
                        before.spec_creators()[turns].0,
                        before.spec_creators()[turns].1,
                        Err::<(), AutumnError>(error),
                    )
                },
        }
    }

    /// Where every pending factory succeeds for its slot,
    /// `compute_all_bean_instances` returns without an error, every slot that
    /// held a pending factory when the call was made holds a bean, and a
    /// lookup finds that bean.
    pub proof fn lemma_compute_all_materializes(
        before: Self,
        after: Self,
        result: AutumnResult<()>,
        key: u64,
        name: SlotName,
    )
        requires
            before.wf(),
            after.all_prepared(before, result),
            before.factories_succeed(),
            before.spec_pending(key, name),
        ensures
            result is Ok,
            after.spec_local_instance(key, name) is Some,
            after.spec_instance(key, name) == after.spec_local_instance(key, name),
            !after.spec_pending(key, name),
    {
        let slots = before.spec_creators();
        assert forall|i: int| 0 <= i < slots.len() implies before.spec_pending(
            (#[trigger] slots[i]).0,
            slots[i].1,
        ) by {
            assert(slots.contains(slots[i]));
            before.lemma_creators(slots[i].0, slots[i].1);
        }
        if let Err(error) = result {
            let (turns, earlier) = choose|turns: int, earlier: Self|
                #![trigger earlier.prepared_all(before, before.spec_creators().take(turns))]
                {
                    &&& 0 <= turns < before.spec_creators().len()
                    &&& earlier.prepared_all(before, before.spec_creators().take(turns))
                    &&& after.prepared(
                        earlier,
                        before.spec_creators()[turns].0,
                        before.spec_creators()[turns].1,
                        Err::<(), AutumnError>(error),
                    )
                };
            let prefix = slots.take(turns);
            let turn = slots[turns];
            assert forall|i: int| 0 <= i < prefix.len() implies before.spec_pending(
                (#[trigger] prefix[i]).0,
                prefix[i].1,
            ) by {
                assert(prefix[i] == slots[i]);
            }
            Self::lemma_prepared_all_keeps_progress(before, earlier, prefix, turn.0, turn.1);
            if earlier.spec_pending(turn.0, turn.1) {
                Self::lemma_turn_succeeds(
                    earlier,
                    after,
                    turn.0,
                    turn.1,
                    Err::<(), AutumnError>(error),
                );
            }
            assert(false);
        }
        before.lemma_creators(key, name);
        Self::lemma_prepared_all_materializes(before, after, slots, key, name);
    }

    /// Makes the slot `name` of the bean type with this key ready: runs the
    /// factory if the slot holds one, and files what it returns.
    pub fn prepare_bean_instance(&mut self, key: u64, name: Option<&'static str>) -> (outcome:
        AutumnResult<()>)
        ensures
            final(self).prepared(*old(self), key, name_view(name), outcome),
    {
        match self.take_bean_creator(key, name) {
            Some(creator) => {
                let ghost vacated = *self;
                let outcome = self.call_creator(creator, key, name);
                assert(self.creator_called(vacated, creator, key, name_view(name), outcome));
                outcome
            },
            None => Ok(()),
        }
    }

    /// Finds the bean of the type `T` under `name` as `get_bean_instance`
    /// does, but first makes the slot ready: if the slot holds a factory, the
    /// factory is taken out of the slot, then run, and what it returns is
    /// filed. A failure of the factory or of the filing is handed on, and the
    /// slot then stays as the factory left it.
    pub fn compute_bean_instance<T: AutumnBean>(&mut self, name: Option<&'static str>) -> (result:
        AutumnResult<AutumnBeanInstance<'_, B, P, M>>)
        ensures
            final(self).prepared(
                *old(self),
                T::IDENTIFIER,
                name_view(name),
                if old(self).spec_pending(T::IDENTIFIER, name_view(name)) {
                    outcome_of(result)
                } else {
                    Ok::<(), AutumnError>(())
                },
            ),
            !old(self).spec_pending(T::IDENTIFIER, name_view(name)) || result is Ok
                ==> final(self).lookup_result(T::IDENTIFIER, name_view(name), T::NAME, result),
    {
        let key = autumn_id::<T>();
        match self.prepare_bean_instance(key, name) {
            Ok(()) => {},
            Err(error) => {
                return Err(error);
            },
        }
        proof {
            if old(self).spec_pending(key, name_view(name)) {
                Self::lemma_prepared_slot_holds_bean(*old(self), *self, key, name_view(name));
            }
        }
        self.get_bean_instance::<T>(name)
    }

    /// Makes every slot ready that holds a pending factory when the call is
    /// made, in the order of `spec_creators`, and stops at the first failure.
    /// The slots are listed before the first factory runs. One that holds no
    /// pending factory when its turn comes, because an earlier factory had it
    /// computed, is passed over; a factory that an earlier factory registered
    /// in another slot is not run.
    pub fn compute_all_bean_instances(&mut self) -> (result: AutumnResult<()>)
        ensures
            final(self).all_prepared(*old(self), result),
            (forall|key: u64, name: SlotName| !old(self).spec_pending(key, name)) ==> result is Ok
                && *final(self) == *old(self),
    {
        let creators = self.creators();
        let ghost slots = old(self).spec_creators();
        let mut i: usize = 0;
        proof {
            assert(slots.take(0) =~= Seq::empty());
        }
        while i < creators.len()
            invariant
                i <= creators.len(),
                slots == old(self).spec_creators(),
                slots == slots_view(creators@),
                self.prepared_all(*old(self), slots.take(i as int)),
                creators@.len() == 0 ==> *self == *old(self),
                creators@.len() > 0 ==> old(self).spec_pending(
                    creators@[0].0,
                    name_view(creators@[0].1),
                ),
            decreases creators.len() - i,
        {
            let (key, name) = creators[i];
            let ghost earlier = *self;
            let outcome = self.prepare_bean_instance(key, name);
            proof {
                assert(slots[i as int] == (key, name_view(name)));
            }
            match outcome {
                Ok(()) => {
                    proof {
                        assert(slots.take(i + 1).drop_last() =~= slots.take(i as int));
                        assert(slots.take(i + 1).last() == slots[i as int]);
                        let longer = slots.take(i + 1);
                        assert(earlier.prepared_all(*old(self), longer.drop_last()));
                        assert(self.prepared(
                            earlier,
                            longer.last().0,
                            longer.last().1,
                            Ok::<(), AutumnError>(()),
                        ));
                        assert(longer.len() > 0);
                        assert(self.prepared_all(*old(self), longer));
                    }
                },
                Err(error) => {
                    proof {
                        assert(earlier.prepared_all(*old(self), slots.take(i as int)));
                    }
                    return Err(error);
                },
            }
            i += 1;
        }
        proof {
            assert(slots.take(creators@.len() as int) =~= slots);
        }
        Ok(())
    }

    /// As `compute_bean_instance`, for the bean alone.
    pub fn compute_bean_instance_reference<T: AutumnBean>(
        &mut self,
        name: Option<&'static str>,
    ) -> (result: AutumnResult<&B>)
        ensures
            final(self).prepared(
                *old(self),
                T::IDENTIFIER,
                name_view(name),
                if old(self).spec_pending(T::IDENTIFIER, name_view(name)) {
                    outcome_of(result)
                } else {
                    Ok::<(), AutumnError>(())
                },
            ),
            !old(self).spec_pending(T::IDENTIFIER, name_view(name)) || result is Ok
                ==> final(self).lookup_reference(
                T::IDENTIFIER,
                name_view(name),
                T::NAME,
                result,
            ),
    {
        let key = autumn_id::<T>();
        match self.prepare_bean_instance(key, name) {
            Ok(()) => {},
            Err(error) => {
                return Err(error);
            },
        }
        proof {
            if old(self).spec_pending(key, name_view(name)) {
                Self::lemma_prepared_slot_holds_bean(*old(self), *self, key, name_view(name));
            }
        }
        self.get_bean_instance_reference::<T>(name)
    }
}

/// A context as a capability gets it: with exclusive access, which allows
/// registering beans and running factories, or with shared access, which
/// allows lookups only.
pub enum AutumnContextReference<'a, B, C, P, M> {
    Mutable(&'a mut AutumnContext<B, C, P, M>),
    Immutable(&'a AutumnContext<B, C, P, M>),
}

impl<'a, B, C, P, M> AutumnContextReference<'a, B, C, P, M> {
    /// The context that the reference leads to.
    pub open spec fn spec_context(&self) -> AutumnContext<B, C, P, M> {
        match self {
            AutumnContextReference::Mutable(context) => **context,
            AutumnContextReference::Immutable(context) => **context,
        }
    }

    /// Whether the access is exclusive.
    pub open spec fn spec_mutable(&self) -> bool {
        self is Mutable
    }

    /// The context for changing; `None` where the access is shared.
    pub fn get_mut<'b>(&'b mut self) -> (context: Option<&'b mut AutumnContext<B, C, P, M>>)
        ensures
            context is Some <==> old(self).spec_mutable(),
            context matches Some(found) ==> *found == old(self).spec_context()
                && final(self).spec_context() == *final(found) && final(self).spec_mutable(),
            context is None ==> *final(self) == *old(self),
    {
        match self {
            AutumnContextReference::Mutable(mutable) => Some(&mut **mutable),
            AutumnContextReference::Immutable(_) => None,
        }
    }

    /// The context for reading.
    pub fn get_ref<'b>(&'b mut self) -> (context: &'b AutumnContext<B, C, P, M>)
        ensures
            *context == old(self).spec_context(),
            *final(self) == *old(self),
    {
        match self {
            AutumnContextReference::Mutable(mutable) => &**mutable,
            AutumnContextReference::Immutable(immutable) => &**immutable,
        }
    }
}

impl<'a, B, C: AutumnBeanCreator<B, P, M>, P, M> AutumnContextReference<'a, B, C, P, M> {
    /// What a lookup through the reference does to the context: with
    /// exclusive access the slot is made ready first, as `prepared` says; with
    /// shared access the context stays as it is.
    pub open spec fn looked_up(
        &self,
        before: Self,
        key: u64,
        name: SlotName,
        outcome: AutumnResult<()>,
    ) -> bool {
        &&& self.spec_mutable() == before.spec_mutable()
        &&& if before.spec_mutable() {
            self.spec_context().prepared(
                before.spec_context(),
                key,
                name,
                if before.spec_context().spec_pending(key, name) {
                    outcome
                } else {
                    Ok::<(), AutumnError>(())
                },
            )
        } else {
            self.spec_context() == before.spec_context()
        }
    }

    /// Finds the bean of the type `T` under `name`: with exclusive access as
    /// `compute_bean_instance` does, with shared access as `get_bean_instance`
    /// does.
    pub fn get_bean_instance<T: AutumnBean>(&mut self, name: Option<&'static str>) -> (result:
        AutumnResult<AutumnBeanInstance<'_, B, P, M>>)
        ensures
            final(self).looked_up(*old(self), T::IDENTIFIER, name_view(name), outcome_of(result)),
            !(old(self).spec_mutable() && old(self).spec_context().spec_pending(
                T::IDENTIFIER,
                name_view(name),
            )) || result is Ok ==> final(self).spec_context().lookup_result(
                T::IDENTIFIER,
                name_view(name),
                T::NAME,
                result,
            ),
    {
        match self {
            AutumnContextReference::Mutable(mutable) => mutable.compute_bean_instance::<T>(name),
            AutumnContextReference::Immutable(immutable) => immutable.get_bean_instance::<T>(name),
        }
    }

    /// As `get_bean_instance`, for the bean alone.
    pub fn get_bean_instance_reference<T: AutumnBean>(
        &mut self,
        name: Option<&'static str>,
    ) -> (result: AutumnResult<&B>)
        ensures
            final(self).looked_up(*old(self), T::IDENTIFIER, name_view(name), outcome_of(result)),
            !(old(self).spec_mutable() && old(self).spec_context().spec_pending(
                T::IDENTIFIER,
                name_view(name),
            )) || result is Ok ==> final(self).spec_context().lookup_reference(
                T::IDENTIFIER,
                name_view(name),
                T::NAME,
                result,
            ),
    {
        match self {
            AutumnContextReference::Mutable(mutable) => {
                mutable.compute_bean_instance_reference::<T>(name)
            },
            AutumnContextReference::Immutable(immutable) => {
                immutable.get_bean_instance_reference::<T>(name)
            },
        }
    }
}

impl<B, C, P, M> Default for AutumnContext<B, C, P, M> {
    /// A context without a parent that holds nothing.
    fn default() -> (context: Self)
        ensures
            context.spec_parent() is None,
            forall|key: u64, name: SlotName| (#[trigger] context.spec_source(key, name)) is None,
            forall|capability: u64| (#[trigger] context.spec_calls(capability)).len() == 0,
    {
        AutumnContext::new()
    }
}

} // verus!
