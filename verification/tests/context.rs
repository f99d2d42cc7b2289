use autumn_core::bean::{AutumnBean, AutumnIdentified};
use autumn_core::context::{
    AutumnBeanCreationData, AutumnBeanCreator, AutumnContext, AutumnContextReference,
};
use autumn_core::descriptor::{
    AutumnBeanInstanceDescriptor, AutumnBeanInstanceMethod, AutumnBeanInstanceMethodDescriptor,
    AutumnBeanInstanceMethodReference, AutumnBeanInstanceMethodType,
};
use autumn_core::ptr::UnknownPointer;
use autumn_core::result::{AutumnError, AutumnResult};
use autumn_core::service::RunnableMethodType;
use std::sync::{Arc, Mutex};

#[derive(Debug)]
struct SimpleBean {
    some_counter: Mutex<i32>,
}

#[derive(Debug)]
struct NeedItSelfBean;

#[derive(Debug)]
struct DependedBean(Arc<SimpleBean>);

#[derive(Debug)]
struct PrintlnBean(String);

#[derive(Debug)]
struct CountService {
    counter: Mutex<i32>,
}

impl CountService {
    fn new() -> Self {
        Self { counter: Mutex::new(0) }
    }

    fn increment(&self) -> i32 {
        let mut counter = self.counter.lock().unwrap();
        let value = *counter;
        *counter += 1;
        value
    }
}

#[derive(Debug)]
struct RecursiveBean;

/// Every bean that these tests store.
#[derive(Debug)]
enum Bean {
    Simple(Arc<SimpleBean>),
    NeedItSelf(NeedItSelfBean),
    Depended(DependedBean),
    Println(PrintlnBean),
    Count(CountService),
    Recursive(RecursiveBean),
}

impl Bean {
    fn simple(&self) -> &Arc<SimpleBean> {
        match self {
            Bean::Simple(bean) => bean,
            other => panic!("not a simple bean: {:?}", other),
        }
    }

    fn depended(&self) -> &DependedBean {
        match self {
            Bean::Depended(bean) => bean,
            other => panic!("not a depended bean: {:?}", other),
        }
    }

    fn count(&self) -> &CountService {
        match self {
            Bean::Count(bean) => bean,
            other => panic!("not a count service: {:?}", other),
        }
    }

    fn println(&self) -> &PrintlnBean {
        match self {
            Bean::Println(bean) => bean,
            other => panic!("not a println bean: {:?}", other),
        }
    }
}

impl AutumnIdentified for SimpleBean {
    const IDENTIFIER: u64 = 1;
    const NAME: &'static str = "SimpleBean";
}

impl AutumnBean for SimpleBean {}

impl AutumnIdentified for NeedItSelfBean {
    const IDENTIFIER: u64 = 2;
    const NAME: &'static str = "NeedItSelfBean";
}

impl AutumnBean for NeedItSelfBean {}

impl AutumnIdentified for DependedBean {
    const IDENTIFIER: u64 = 3;
    const NAME: &'static str = "DependedBean";
}

impl AutumnBean for DependedBean {}

impl AutumnIdentified for PrintlnBean {
    const IDENTIFIER: u64 = 4;
    const NAME: &'static str = "PrintlnBean";
}

impl AutumnBean for PrintlnBean {}

impl AutumnBeanInstanceMethodType for PrintlnBean {}

impl AutumnIdentified for CountService {
    const IDENTIFIER: u64 = 5;
    const NAME: &'static str = "CountService";
}

impl AutumnBean for CountService {}

impl AutumnIdentified for RecursiveBean {
    const IDENTIFIER: u64 = 6;
    const NAME: &'static str = "RecursiveBean";
}

impl AutumnBean for RecursiveBean {}

/// The method of a capability: a plain function, and a count of its calls.
struct Method {
    run: fn(AutumnBeanInstanceMethodReference<'_, Bean, Creator, (), Method>) -> AutumnResult<()>,
    calls: Mutex<usize>,
}

impl Method {
    fn new(
        run: fn(AutumnBeanInstanceMethodReference<'_, Bean, Creator, (), Method>) -> AutumnResult<()>,
    ) -> Self {
        Method { run, calls: Mutex::new(0) }
    }
}

impl AutumnBeanInstanceMethod<Bean, Creator, ()> for Method {
    type Arguments = ();

    fn invoke(
        &self,
        reference: AutumnBeanInstanceMethodReference<'_, Bean, Creator, (), Method>,
        _parameters: &(),
        _arguments: &(),
    ) -> AutumnResult<()> {
        *self.calls.lock().unwrap() += 1;
        (self.run)(reference)
    }
}

type Context = AutumnContext<Bean, Creator, (), Method>;
type Descriptor = AutumnBeanInstanceDescriptor<(), Method>;
type CreationData = AutumnBeanCreationData<Bean, (), Method>;

struct SimpleBeanCreator;

struct NeedItSelfBeanCreator(Option<&'static str>);

struct DependedBeanCreator;

struct CountServiceCreator;

struct RecursiveBeanCreator;

/// A factory that counts its runs.
struct CountingCreator(Arc<Mutex<usize>>);

/// A factory that fails.
struct FailingCreator;

/// A factory that registers another factory while it runs.
struct RegisteringCreator;

/// Every factory that these tests register.
enum Creator {
    Simple(SimpleBeanCreator),
    NeedItSelf(NeedItSelfBeanCreator),
    Depended(DependedBeanCreator),
    Count(CountServiceCreator),
    Recursive(RecursiveBeanCreator),
    Counting(CountingCreator),
    Failing(FailingCreator),
    Registering(RegisteringCreator),
}

fn simple_bean(value: i32) -> Box<Bean> {
    Box::new(Bean::Simple(Arc::new(SimpleBean { some_counter: Mutex::new(value) })))
}

impl AutumnBeanCreator<Bean, (), Method> for Creator {
    fn create_instance(self, context: &mut Context) -> AutumnResult<CreationData> {
        match self {
            Creator::Simple(_) => {
                Ok(AutumnBeanCreationData { bean: simple_bean(32), descriptor: Descriptor::empty_arc() })
            }
            Creator::NeedItSelf(creator) => {
                context.compute_bean_instance_reference::<NeedItSelfBean>(creator.0)?;
                Ok(AutumnBeanCreationData {
                    bean: Box::new(Bean::NeedItSelf(NeedItSelfBean)),
                    descriptor: Descriptor::empty_arc(),
                })
            }
            Creator::Depended(_) => {
                let simple =
                    context.compute_bean_instance_reference::<SimpleBean>(None)?.simple().clone();
                Ok(AutumnBeanCreationData {
                    bean: Box::new(Bean::Depended(DependedBean(simple))),
                    descriptor: Descriptor::empty_arc(),
                })
            }
            Creator::Count(_) => {
                Ok(AutumnBeanCreationData::new(Box::new(Bean::Count(CountService::new()))))
            }
            Creator::Recursive(_) => context
                .compute_bean_instance::<RecursiveBean>(None)
                .map(|_| AutumnBeanCreationData {
                    bean: Box::new(Bean::Recursive(RecursiveBean)),
                    descriptor: Descriptor::empty_arc(),
                }),
            Creator::Counting(creator) => {
                *creator.0.lock().unwrap() += 1;
                Ok(AutumnBeanCreationData {
                    bean: Box::new(Bean::Count(CountService::new())),
                    descriptor: Descriptor::empty_arc(),
                })
            }
            Creator::Failing(_) => Err(AutumnError::BeanAlreadyExist),
            Creator::Registering(_) => {
                context.add_bean_creator::<SimpleBean>(Creator::Simple(SimpleBeanCreator), Some("late"))?;
                Ok(AutumnBeanCreationData {
                    bean: Box::new(Bean::NeedItSelf(NeedItSelfBean)),
                    descriptor: Descriptor::empty_arc(),
                })
            }
        }
    }
}

fn println_task(
    reference: AutumnBeanInstanceMethodReference<'_, Bean, Creator, (), Method>,
) -> AutumnResult<()> {
    println!("{}", reference.as_ref().0.println().0);
    Ok(())
}

fn failing_task(
    _reference: AutumnBeanInstanceMethodReference<'_, Bean, Creator, (), Method>,
) -> AutumnResult<()> {
    Err(AutumnError::BeanAlreadyExist)
}

fn registering_task(
    mut reference: AutumnBeanInstanceMethodReference<'_, Bean, Creator, (), Method>,
) -> AutumnResult<()> {
    match reference.as_mut() {
        Some((_, context)) => {
            context.add_bean_instance::<SimpleBean>(simple_bean(7), Some("made"), Descriptor::empty_arc())
        }
        None => Err(AutumnError::bean_not_exist::<SimpleBean>(Some("made"))),
    }
}

fn println_descriptor() -> Arc<Descriptor> {
    Arc::new({
        let mut descriptor = AutumnBeanInstanceDescriptor::empty();
        descriptor.add_method_descriptor(AutumnBeanInstanceMethodDescriptor::<PrintlnBean, (), Method>::new(
            Box::new(()),
            Method::new(println_task),
        ));
        descriptor
    })
}

#[test]
fn bean_get_test() {
    let mut context = Context::new();
    context.add_bean_instance::<SimpleBean>(simple_bean(0), None, AutumnBeanInstanceDescriptor::empty_arc()).unwrap();
    *context.get_bean_instance_reference::<SimpleBean>(None).unwrap().simple().some_counter.lock().unwrap() += 1;
    assert_eq!(*context.get_bean_instance_reference::<SimpleBean>(None).unwrap().simple().some_counter.lock().unwrap(), 1);
}

#[test]
fn bean_compute_test() {
    let mut context = Context::new();
    context.add_bean_creator::<SimpleBean>(Creator::Simple(SimpleBeanCreator {}), None).unwrap();
    assert_eq!(context.get_bean_instance_reference::<SimpleBean>(None).is_err(), true);
    assert_eq!(*context.compute_bean_instance_reference::<SimpleBean>(None).unwrap().simple().some_counter.lock().unwrap(), 32);
}

#[test]
fn bean_compute_all_test() {
    let mut context = Context::new();
    context.add_bean_creator::<SimpleBean>(Creator::Simple(SimpleBeanCreator {}), None).unwrap();
    context.compute_all_bean_instances().unwrap();
    assert_eq!(*context.get_bean_instance_reference::<SimpleBean>(None).unwrap().simple().some_counter.lock().unwrap(), 32);
    assert_eq!(*context.compute_bean_instance_reference::<SimpleBean>(None).unwrap().simple().some_counter.lock().unwrap(), 32);
}

#[test]
fn bean_recursion_get_test() {
    let mut context = Context::new();
    context.add_bean_creator::<NeedItSelfBean>(Creator::NeedItSelf(NeedItSelfBeanCreator(None)), None).unwrap();
    assert_eq!(context.compute_all_bean_instances().is_err(), true)
}

#[test]
fn bean_dependencies_test() {
    let mut context = Context::new();
    context.add_bean_creator::<DependedBean>(Creator::Depended(DependedBeanCreator), None).unwrap();
    context.add_bean_creator::<SimpleBean>(Creator::Simple(SimpleBeanCreator), None).unwrap();
    let depended = Arc::as_ptr(&context.compute_bean_instance_reference::<DependedBean>(None).unwrap().depended().0);
    assert_eq!(
        depended,
        Arc::as_ptr(context.compute_bean_instance_reference::<SimpleBean>(None).unwrap().simple()),
    )
}

#[test]
fn descriptor_test() {
    let mut context = Context::new();
    context.add_bean_instance::<PrintlnBean>(
        Box::new(Bean::Println(PrintlnBean("hello, world".to_string()))),
        None,
        println_descriptor(),
    ).unwrap();
    context.get_methods::<PrintlnBean>()
        .into_iter()
        .for_each(|mut call| call.call(&()).unwrap())
}

#[test]
fn add_get_bean_test() {
    let mut context = Context::new();
    context.add_bean_instance::<CountService>(Box::new(Bean::Count(CountService::new())), None, Descriptor::empty_arc()).unwrap();
    assert_eq!(context.get_bean_instance::<CountService>(None).unwrap().get().count().increment(), 0);
    assert_eq!(context.get_bean_instance::<CountService>(None).unwrap().get().count().increment(), 1);
}

#[test]
fn add_compute_bean_creator_test() {
    let mut context = Context::new();
    context.add_bean_creator::<CountService>(Creator::Count(CountServiceCreator), None).unwrap();
    assert_eq!(context.compute_bean_instance::<CountService>(None).unwrap().get().count().increment(), 0);
    assert_eq!(context.compute_bean_instance::<CountService>(None).unwrap().get().count().increment(), 1);
}

#[test]
fn try_reinsert_bean_test() {
    let mut context = Context::new();
    context.add_bean_instance::<CountService>(Box::new(Bean::Count(CountService::new())), None, Descriptor::empty_arc()).unwrap();
    assert_eq!(context.add_bean_instance::<CountService>(Box::new(Bean::Count(CountService::new())), None, Descriptor::empty_arc()).unwrap_err(), AutumnError::BeanAlreadyExist);
}

#[test]
fn recursive_dependency_test() {
    let mut context = Context::new();
    context.add_bean_creator::<RecursiveBean>(Creator::Recursive(RecursiveBeanCreator), None).unwrap();
    assert_eq!(
        context.compute_bean_instance::<RecursiveBean>(None).map(|_| panic!()).unwrap_err(),
        AutumnError::BeanNotExist("RecursiveBean", None),
    );
}

#[test]
fn missing_bean_error_names_type_and_slot() {
    let context = Context::new();
    assert_eq!(
        context.get_bean_instance_reference::<SimpleBean>(Some("main")).unwrap_err(),
        AutumnError::BeanNotExist("SimpleBean", Some("main".to_string())),
    );
    assert_eq!(
        context.get_bean_instance_reference::<SimpleBean>(None).unwrap_err(),
        AutumnError::BeanNotExist("SimpleBean", None),
    );
    assert_eq!(
        AutumnError::bean_not_exist::<CountService>(Some("a")),
        AutumnError::BeanNotExist("CountService", Some("a".to_string())),
    );
}

#[test]
fn named_slots_are_separate() {
    let mut context = Context::new();
    context.add_bean_instance::<SimpleBean>(simple_bean(1), None, Descriptor::empty_arc()).unwrap();
    context.add_bean_instance::<SimpleBean>(simple_bean(2), Some("two"), Descriptor::empty_arc()).unwrap();
    context.add_bean_instance::<SimpleBean>(simple_bean(3), Some("three"), Descriptor::empty_arc()).unwrap();
    let value = |context: &Context, name| {
        *context.get_bean_instance_reference::<SimpleBean>(name).unwrap().simple().some_counter.lock().unwrap()
    };
    assert_eq!(value(&context, None), 1);
    assert_eq!(value(&context, Some("two")), 2);
    assert_eq!(value(&context, Some("three")), 3);
    assert!(context.get_bean_instance_reference::<SimpleBean>(Some("four")).is_err());
    assert!(context.get_bean_instance_reference::<CountService>(Some("two")).is_err());
    assert_eq!(
        context.add_bean_instance::<SimpleBean>(simple_bean(9), Some("two"), Descriptor::empty_arc()).unwrap_err(),
        AutumnError::BeanAlreadyExist,
    );
    assert_eq!(value(&context, Some("two")), 2);
}

#[test]
fn creator_is_refused_on_an_occupied_slot() {
    let mut context = Context::new();
    context.add_bean_creator::<SimpleBean>(Creator::Simple(SimpleBeanCreator), None).unwrap();
    assert_eq!(
        context.add_bean_creator::<SimpleBean>(Creator::Simple(SimpleBeanCreator), None).unwrap_err(),
        AutumnError::BeanAlreadyExist,
    );
    context.add_bean_instance::<CountService>(Box::new(Bean::Count(CountService::new())), None, Descriptor::empty_arc()).unwrap();
    assert_eq!(
        context.add_bean_creator::<CountService>(Creator::Count(CountServiceCreator), None).unwrap_err(),
        AutumnError::BeanAlreadyExist,
    );
    context.add_bean_creator::<SimpleBean>(Creator::Simple(SimpleBeanCreator), Some("other")).unwrap();
}

#[test]
fn instance_replaces_a_pending_creator() {
    let runs = Arc::new(Mutex::new(0usize));
    let mut context = Context::new();
    context.add_bean_creator::<CountService>(Creator::Counting(CountingCreator(runs.clone())), None).unwrap();
    context.add_bean_instance::<CountService>(Box::new(Bean::Count(CountService::new())), None, Descriptor::empty_arc()).unwrap();
    assert!(context.creators().is_empty());
    assert_eq!(context.compute_bean_instance::<CountService>(None).unwrap().instance.count().increment(), 0);
    context.compute_all_bean_instances().unwrap();
    assert_eq!(*runs.lock().unwrap(), 0);
}

#[test]
fn factory_runs_exactly_once() {
    let runs = Arc::new(Mutex::new(0usize));
    let mut context = Context::new();
    context.add_bean_creator::<CountService>(Creator::Counting(CountingCreator(runs.clone())), None).unwrap();
    assert!(context.get_bean_instance::<CountService>(None).is_err());
    assert_eq!(*runs.lock().unwrap(), 0);
    assert_eq!(context.compute_bean_instance_reference::<CountService>(None).unwrap().count().increment(), 0);
    assert_eq!(context.compute_bean_instance_reference::<CountService>(None).unwrap().count().increment(), 1);
    assert_eq!(context.get_bean_instance_reference::<CountService>(None).unwrap().count().increment(), 2);
    context.compute_all_bean_instances().unwrap();
    assert_eq!(*runs.lock().unwrap(), 1);
}

#[test]
fn compute_all_materializes_every_factory() {
    let runs = Arc::new(Mutex::new(0usize));
    let mut context = Context::new();
    context.add_bean_creator::<SimpleBean>(Creator::Simple(SimpleBeanCreator), None).unwrap();
    context.add_bean_creator::<SimpleBean>(Creator::Simple(SimpleBeanCreator), Some("named")).unwrap();
    context.add_bean_creator::<DependedBean>(Creator::Depended(DependedBeanCreator), None).unwrap();
    context.add_bean_creator::<CountService>(Creator::Counting(CountingCreator(runs.clone())), Some("count")).unwrap();
    assert_eq!(
        context.creators(),
        vec![(1, None), (1, Some("named")), (3, None), (5, Some("count"))],
    );
    context.compute_all_bean_instances().unwrap();
    assert!(context.creators().is_empty());
    assert!(context.get_bean_instance::<SimpleBean>(None).is_ok());
    assert!(context.get_bean_instance::<SimpleBean>(Some("named")).is_ok());
    assert!(context.get_bean_instance::<DependedBean>(None).is_ok());
    assert!(context.get_bean_instance::<CountService>(Some("count")).is_ok());
    assert_eq!(*runs.lock().unwrap(), 1);
}

#[test]
fn compute_all_stops_at_the_first_failure() {
    let runs = Arc::new(Mutex::new(0usize));
    let mut context = Context::new();
    context.add_bean_creator::<SimpleBean>(Creator::Simple(SimpleBeanCreator), None).unwrap();
    context.add_bean_creator::<NeedItSelfBean>(Creator::Failing(FailingCreator), None).unwrap();
    context.add_bean_creator::<CountService>(Creator::Counting(CountingCreator(runs.clone())), None).unwrap();
    assert_eq!(context.compute_all_bean_instances().unwrap_err(), AutumnError::BeanAlreadyExist);
    assert!(context.get_bean_instance::<SimpleBean>(None).is_ok());
    assert!(context.get_bean_instance::<NeedItSelfBean>(None).is_err());
    assert_eq!(*runs.lock().unwrap(), 0);
    assert_eq!(context.creators(), vec![(5, None)]);
}

#[test]
fn compute_all_does_not_run_factories_registered_meanwhile() {
    let mut context = Context::new();
    context.add_bean_creator::<NeedItSelfBean>(Creator::Registering(RegisteringCreator), None).unwrap();
    context.compute_all_bean_instances().unwrap();
    assert!(context.get_bean_instance::<NeedItSelfBean>(None).is_ok());
    assert!(context.get_bean_instance::<SimpleBean>(Some("late")).is_err());
    assert_eq!(context.creators(), vec![(1, Some("late"))]);
}

#[test]
fn failed_factory_leaves_the_slot_empty() {
    let mut context = Context::new();
    context.add_bean_creator::<NeedItSelfBean>(Creator::NeedItSelf(NeedItSelfBeanCreator(Some("own"))), Some("own")).unwrap();
    assert_eq!(
        context.compute_bean_instance_reference::<NeedItSelfBean>(Some("own")).unwrap_err(),
        AutumnError::BeanNotExist("NeedItSelfBean", Some("own".to_string())),
    );
    assert!(context.creators().is_empty());
    assert!(context.get_bean_instance::<NeedItSelfBean>(Some("own")).is_err());
    assert!(context.compute_bean_instance::<NeedItSelfBean>(Some("own")).is_err());
    context.add_bean_creator::<NeedItSelfBean>(Creator::Failing(FailingCreator), Some("own")).unwrap();
}

#[test]
fn taking_a_creator_vacates_the_slot() {
    let mut context = Context::new();
    context.add_bean_creator::<SimpleBean>(Creator::Simple(SimpleBeanCreator), None).unwrap();
    assert!(context.take_bean_creator(2, None).is_none());
    assert!(context.take_bean_creator(1, Some("x")).is_none());
    let creator = context.take_bean_creator(1, None);
    assert!(matches!(creator, Some(Creator::Simple(_))));
    assert!(context.take_bean_creator(1, None).is_none());
    assert!(context.creators().is_empty());
    assert_eq!(context.add_created_bean(1, None, Err(AutumnError::BeanAlreadyExist)).unwrap_err(), AutumnError::BeanAlreadyExist);
    assert!(context.get_bean_instance::<SimpleBean>(None).is_err());
    let created = creator.unwrap().create_instance(&mut context);
    context.add_created_bean(1, None, created).unwrap();
    assert_eq!(*context.get_bean_instance_reference::<SimpleBean>(None).unwrap().simple().some_counter.lock().unwrap(), 32);
    context.call_creator(Creator::Count(CountServiceCreator), 5, Some("c")).unwrap();
    assert_eq!(context.get_bean_instance_reference::<CountService>(Some("c")).unwrap().count().increment(), 0);
}

#[test]
fn preparing_a_slot_runs_its_factory_once() {
    let runs = Arc::new(Mutex::new(0usize));
    let mut context = Context::new();
    context.prepare_bean_instance(5, None).unwrap();
    assert!(context.get_bean_instance::<CountService>(None).is_err());
    context.add_bean_creator::<CountService>(Creator::Counting(CountingCreator(runs.clone())), None).unwrap();
    context.add_bean_creator::<NeedItSelfBean>(Creator::Failing(FailingCreator), Some("f")).unwrap();
    context.prepare_bean_instance(5, None).unwrap();
    context.prepare_bean_instance(5, None).unwrap();
    assert_eq!(*runs.lock().unwrap(), 1);
    assert!(context.get_bean_instance::<CountService>(None).is_ok());
    assert_eq!(context.prepare_bean_instance(2, Some("f")).unwrap_err(), AutumnError::BeanAlreadyExist);
    assert!(context.creators().is_empty());
    context.prepare_bean_instance(2, Some("f")).unwrap();
}

#[test]
fn self_requesting_factory_finds_the_bean_of_the_parent() {
    let mut parent = Context::new();
    parent.add_bean_instance::<NeedItSelfBean>(Box::new(Bean::NeedItSelf(NeedItSelfBean)), None, Descriptor::empty_arc()).unwrap();
    let mut child = Context::with_parent(Arc::new(parent));
    child.add_bean_creator::<NeedItSelfBean>(Creator::NeedItSelf(NeedItSelfBeanCreator(None)), None).unwrap();
    child.compute_all_bean_instances().unwrap();
    assert!(child.creators().is_empty());
    assert!(child.compute_bean_instance::<NeedItSelfBean>(None).is_ok());
}

#[test]
fn child_falls_back_to_parent() {
    let mut parent = Context::new();
    parent.add_bean_instance::<SimpleBean>(simple_bean(10), None, Descriptor::empty_arc()).unwrap();
    parent.add_bean_creator::<CountService>(Creator::Count(CountServiceCreator), None).unwrap();
    let parent = Arc::new(parent);
    let mut child = Context::with_parent(parent.clone());
    let value = |context: &Context| {
        *context.get_bean_instance_reference::<SimpleBean>(None).unwrap().simple().some_counter.lock().unwrap()
    };
    assert_eq!(value(&child), 10);
    assert_eq!(*child.compute_bean_instance_reference::<SimpleBean>(None).unwrap().simple().some_counter.lock().unwrap(), 10);
    assert!(child.get_bean_instance::<CountService>(None).is_err());
    assert!(child.compute_bean_instance::<CountService>(None).is_err());
    child.add_bean_instance::<SimpleBean>(simple_bean(20), None, Descriptor::empty_arc()).unwrap();
    assert_eq!(value(&child), 20);
    assert_eq!(value(&parent), 10);
    assert!(child.get_parent_bean_instance::<SimpleBean>(None).is_ok());
    assert!(parent.get_parent_bean_instance::<SimpleBean>(None).is_err());
    let grandchild = Context::with_parent(Arc::new(child));
    assert_eq!(value(&grandchild), 20);
    assert!(grandchild.get_bean_instance::<SimpleBean>(Some("n")).is_err());
}

#[test]
fn pending_creator_in_child_hides_the_parent() {
    let mut parent = Context::new();
    parent.add_bean_instance::<SimpleBean>(simple_bean(10), None, Descriptor::empty_arc()).unwrap();
    let mut child = Context::with_parent(Arc::new(parent));
    child.add_bean_creator::<SimpleBean>(Creator::Simple(SimpleBeanCreator), None).unwrap();
    assert_eq!(
        child.get_bean_instance_reference::<SimpleBean>(None).unwrap_err(),
        AutumnError::BeanNotExist("SimpleBean", None),
    );
    assert!(child.get_bean_instance::<SimpleBean>(None).is_err());
    assert!(AutumnContextReference::Immutable(&child).get_bean_instance::<SimpleBean>(None).is_err());
    assert!(child.get_parent_bean_instance::<SimpleBean>(None).is_ok());
    assert_eq!(*child.compute_bean_instance_reference::<SimpleBean>(None).unwrap().simple().some_counter.lock().unwrap(), 32);
    assert_eq!(*child.get_bean_instance_reference::<SimpleBean>(None).unwrap().simple().some_counter.lock().unwrap(), 32);
}

#[test]
fn announce_capability_is_invoked_once() {
    let mut context = Context::new();
    context.add_bean_instance::<PrintlnBean>(
        Box::new(Bean::Println(PrintlnBean("hello, world".to_string()))),
        None,
        println_descriptor(),
    ).unwrap();
    assert!(context.get_methods::<RunnableMethodType>().is_empty());
    let mut calls = context.get_methods::<PrintlnBean>();
    assert_eq!(calls.len(), 1);
    assert_eq!(*calls[0].descriptor.method.calls.lock().unwrap(), 0);
    calls[0].call(&()).unwrap();
    assert_eq!(*calls[0].descriptor.method.calls.lock().unwrap(), 1);
    assert_eq!(calls[0].reference.as_ref().0.println().0, "hello, world");
    assert!(calls[0].reference.as_mut().is_none());
}

#[test]
fn capabilities_are_listed_in_registration_order() {
    let mut first = Descriptor::empty();
    assert!(first.get_method_descriptors::<PrintlnBean>().is_none());
    first.add_method_descriptor(AutumnBeanInstanceMethodDescriptor::<PrintlnBean, (), Method>::new(Box::new(()), Method::new(println_task)));
    first.add_method_descriptor(AutumnBeanInstanceMethodDescriptor::<RunnableMethodType, (), Method>::new(Box::new(()), Method::new(failing_task)));
    first.add_method_descriptor(AutumnBeanInstanceMethodDescriptor::<PrintlnBean, (), Method>::new(Box::new(()), Method::new(failing_task)));
    assert_eq!(first.get_method_descriptors::<PrintlnBean>().unwrap().len(), 2);
    assert_eq!(first.get_method_descriptors::<RunnableMethodType>().unwrap().len(), 1);
    assert!(first.get_method_descriptors::<SimpleBeanCapability>().is_none());
    let mut context = Context::new();
    context.add_bean_instance::<PrintlnBean>(Box::new(Bean::Println(PrintlnBean("one".to_string()))), None, Arc::new(first)).unwrap();
    context.add_bean_instance::<PrintlnBean>(Box::new(Bean::Println(PrintlnBean("two".to_string()))), Some("two"), println_descriptor()).unwrap();
    let mut calls = context.get_methods::<PrintlnBean>();
    let names: Vec<String> = calls.iter().map(|call| call.reference.as_ref().0.println().0.clone()).collect();
    assert_eq!(names, vec!["one".to_string(), "one".to_string(), "two".to_string()]);
    assert!(calls[0].call(&()).is_ok());
    assert_eq!(calls[1].call(&()).unwrap_err(), AutumnError::BeanAlreadyExist);
    assert!(calls[2].call(&()).is_ok());
    let mut runnable = context.get_methods::<RunnableMethodType>();
    assert_eq!(runnable.len(), 1);
    assert_eq!(runnable[0].call(&()).unwrap_err(), AutumnError::BeanAlreadyExist);
}

struct SimpleBeanCapability;

impl AutumnIdentified for SimpleBeanCapability {
    const IDENTIFIER: u64 = 77;
    const NAME: &'static str = "SimpleBeanCapability";
}

impl AutumnBeanInstanceMethodType for SimpleBeanCapability {}

#[test]
fn refused_bean_registers_no_capabilities() {
    let mut context = Context::new();
    context.add_bean_instance::<PrintlnBean>(Box::new(Bean::Println(PrintlnBean("kept".to_string()))), None, println_descriptor()).unwrap();
    assert_eq!(context.get_methods::<PrintlnBean>().len(), 1);
    assert_eq!(
        context.add_bean_instance::<PrintlnBean>(Box::new(Bean::Println(PrintlnBean("refused".to_string()))), None, println_descriptor()).unwrap_err(),
        AutumnError::BeanAlreadyExist,
    );
    let refused = UnknownPointer::new(Box::new(Bean::Println(PrintlnBean("pointer".to_string()))));
    assert_eq!(
        context.add_pointer_bean_instance::<PrintlnBean>(refused, None, println_descriptor()).unwrap_err(),
        AutumnError::BeanAlreadyExist,
    );
    let created = Ok(AutumnBeanCreationData {
        bean: Box::new(Bean::Println(PrintlnBean("created".to_string()))),
        descriptor: println_descriptor(),
    });
    assert_eq!(context.add_created_bean(4, None, created).unwrap_err(), AutumnError::BeanAlreadyExist);
    let calls = context.get_methods::<PrintlnBean>();
    let names: Vec<String> = calls.iter().map(|call| call.reference.as_ref().0.println().0.clone()).collect();
    assert_eq!(names, vec!["kept".to_string()]);
    assert_eq!(context.get_bean_instance_reference::<PrintlnBean>(None).unwrap().println().0, "kept");
}

#[test]
fn call_leaves_the_handle_as_it_is() {
    let mut context = Context::new();
    context.add_bean_instance::<PrintlnBean>(Box::new(Bean::Println(PrintlnBean("again".to_string()))), None, println_descriptor()).unwrap();
    let mut calls = context.get_methods::<PrintlnBean>();
    calls[0].call(&()).unwrap();
    calls[0].call(&()).unwrap();
    assert_eq!(*calls[0].descriptor.method.calls.lock().unwrap(), 2);
    assert_eq!(calls[0].reference.as_ref().0.println().0, "again");
    assert!(calls[0].reference.as_mut().is_none());
}

#[test]
fn mutable_reference_grants_the_context() {
    let mut context = Context::new();
    let bean = UnknownPointer::new(Box::new(Bean::Println(PrintlnBean("owner".to_string()))));
    let method = Method::new(registering_task);
    {
        let reference = AutumnBeanInstanceMethodReference::new(bean.share(), &context);
        assert!(method.invoke(reference, &(), &()).is_err());
    }
    {
        let reference = AutumnBeanInstanceMethodReference::new_mut(bean.share(), &mut context);
        method.invoke(reference, &(), &()).unwrap();
    }
    assert_eq!(*context.get_bean_instance_reference::<SimpleBean>(Some("made")).unwrap().simple().some_counter.lock().unwrap(), 7);
    let mut reference = AutumnBeanInstanceMethodReference::new_mut(bean.share(), &mut context);
    assert!(reference.as_mut().is_some());
    assert_eq!(reference.as_ref().0.println().0, "owner");
    let mut lent = reference.reborrow();
    assert!(lent.as_mut().is_some());
    let (handle, mut access) = reference.as_unknown_ref();
    assert_eq!(handle.get().println().0, "owner");
    assert!(access.get_mut().is_some());
    assert!(access.get_ref().get_bean_instance::<SimpleBean>(Some("made")).is_ok());
}

#[test]
fn context_reference_computes_only_with_exclusive_access() {
    let mut context = Context::new();
    context.add_bean_creator::<SimpleBean>(Creator::Simple(SimpleBeanCreator), None).unwrap();
    {
        let mut shared = AutumnContextReference::Immutable(&context);
        assert!(shared.get_mut().is_none());
        assert!(shared.get_bean_instance::<SimpleBean>(None).is_err());
        assert!(shared.get_bean_instance_reference::<SimpleBean>(None).is_err());
        assert_eq!(shared.get_ref().creators(), vec![(1, None)]);
    }
    let mut exclusive = AutumnContextReference::Mutable(&mut context);
    assert_eq!(*exclusive.get_bean_instance_reference::<SimpleBean>(None).unwrap().simple().some_counter.lock().unwrap(), 32);
    assert!(exclusive.get_bean_instance::<SimpleBean>(None).is_ok());
    assert!(exclusive.get_ref().creators().is_empty());
}

#[test]
fn pointer_share_leads_to_the_same_bean() {
    let pointer = UnknownPointer::new(Box::new(CountService::new()));
    let other = pointer.share();
    assert_eq!(pointer.get().increment(), 0);
    assert_eq!(other.get().increment(), 1);
    assert_eq!(pointer.get().increment(), 2);
}
