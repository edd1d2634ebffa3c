use chat_ecs::system::{FunctionSystemDef, System, SystemParam};
use chat_ecs::world::World;

#[test]
fn system_check() {
    struct DummyParam(i32);

    impl SystemParam for DummyParam {
        type State = i32;
        type Item<'world, 'state> = Self;

        fn init_state(_world: &World) -> Self::State {
            2
        }

        fn from_state<'world, 'state>(
            state: &'state mut Self::State,
            _world: &'world World,
        ) -> Self {
            Self(*state)
        }
    }

    fn dummy_system(dummy: DummyParam) {
        assert_eq!(dummy.0, 2);
    }

    let world = World::new();

    let mut func_sys = FunctionSystemDef::new(dummy_system).into_system(&world);

    func_sys.run((), &world);
}

#[test]
fn lifetime_system_check() {
    struct DummyParam<'w>(&'w i32);

    impl SystemParam for DummyParam<'_> {
        type State = i32;
        type Item<'world, 'state> = DummyParam<'state>;

        fn init_state(_world: &World) -> Self::State {
            2
        }

        fn from_state<'world, 'state>(
            state: &'state mut Self::State,
            _world: &'world World,
        ) -> DummyParam<'state> {
            DummyParam(state)
        }
    }

    fn dummy_system(dummy: DummyParam<'_>) {
        assert_eq!(dummy.0, &2);
    }

    let world = World::new();

    let mut func_sys = FunctionSystemDef::new(dummy_system).into_system(&world);

    func_sys.run((), &world);
}

#[test]
fn system_with_input_returns_the_function_result() {
    struct Offset(i32);

    impl SystemParam for Offset {
        type State = i32;
        type Item<'world, 'state> = Self;

        fn init_state(_world: &World) -> Self::State {
            40
        }

        fn from_state<'world, 'state>(
            state: &'state mut Self::State,
            _world: &'world World,
        ) -> Self {
            Self(*state)
        }
    }

    fn add(input: i32, offset: Offset) -> i32 {
        input + offset.0
    }

    let world = World::new();
    let mut system = FunctionSystemDef::new(add).into_system(&world);
    assert_eq!(system.run(2, &world), 42);
    assert_eq!(system.run(-40, &world), 0);
}

#[test]
fn tuple_parameters_are_made_from_each_state() {
    struct First(u8);
    struct Second(u16);

    impl SystemParam for First {
        type State = u8;
        type Item<'world, 'state> = Self;

        fn init_state(_world: &World) -> Self::State {
            7
        }

        fn from_state<'world, 'state>(
            state: &'state mut Self::State,
            _world: &'world World,
        ) -> Self {
            Self(*state)
        }
    }

    impl SystemParam for Second {
        type State = u16;
        type Item<'world, 'state> = Self;

        fn init_state(_world: &World) -> Self::State {
            300
        }

        fn from_state<'world, 'state>(
            state: &'state mut Self::State,
            _world: &'world World,
        ) -> Self {
            Self(*state)
        }
    }

    let world = World::new();
    let mut state = <(First, Second) as SystemParam>::init_state(&world);
    assert_eq!(state, (7, 300));
    let (first, second) = <(First, Second) as SystemParam>::from_state(&mut state, &world);
    assert_eq!(first.0, 7);
    assert_eq!(second.0, 300);
}

#[test]
fn a_system_written_by_hand_runs() {
    struct Counter(u32);

    impl System for Counter {
        type Input = u32;
        type Output = u32;

        fn run(&mut self, input: Self::Input, world: &World) -> Self::Output {
            self.0 += input + world.archetypes().len() as u32;
            self.0
        }
    }

    let world = World::new();
    let mut counter = Counter(10);
    assert_eq!(counter.run(5, &world), 16);
    assert_eq!(counter.run(0, &world), 17);
}
