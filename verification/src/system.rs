//! Systems that act on the world.

use crate::world::World;
use std::marker::PhantomData;
use vstd::prelude::*;

verus! {

/// A computation over the world.
pub trait System: Send + Sync + 'static {
    type Input;

    type Output;

    /// The inputs on which the system can run: all, unless an
    /// implementation says otherwise.
    open spec fn accepts(&self, input: Self::Input, world: &World) -> bool {
        true
    }

    /// What an implementation says of what the system returns on an input:
    /// nothing, unless it says more.
    open spec fn yields(&self, input: Self::Input, world: &World, output: Self::Output) -> bool {
        true
    }

    fn run(&mut self, input: Self::Input, world: &World) -> (output: Self::Output)
        requires
            old(self).accepts(input, world),
        ensures
            old(self).yields(input, world, output),
    ;
}

pub type SystemResult = Result<(), SystemError>;

/// Why a system gave up.
#[derive(Clone, Copy, Debug, PartialEq, Eq, Structural)]
pub enum SystemError {
    LogicError,
    MaxIterations,
}

/// A parameter that a system function takes: made from a state that is
/// set up once for a world.
pub trait SystemParam: Sized {
    type State: Send + Sync + 'static;

    type Item<'world, 'state>;

    /// What an implementation says of the states that `init_state` sets up
    /// for `world`: nothing, unless it says more.
    open spec fn sets_up(world: &World, state: Self::State) -> bool {
        true
    }

    /// What an implementation says of the parameters that `from_state`
    /// makes from `state` for `world`: nothing, unless it says more.
    open spec fn makes(state: Self::State, world: &World, item: Self::Item<'_, '_>) -> bool {
        true
    }

    fn init_state(world: &World) -> (state: Self::State)
        ensures
            Self::sets_up(world, state),
    ;

    fn from_state<'world, 'state>(
        state: &'state mut Self::State,
        world: &'world World,
    ) -> (item: Self::Item<'world, 'state>)
        ensures
            Self::makes(*old(state), world, item),
    ;
}

impl<S0: SystemParam, S1: SystemParam> SystemParam for (S0, S1) {
    type State = (S0::State, S1::State);

    type Item<'world, 'state> = (S0::Item<'world, 'state>, S1::Item<'world, 'state>);

    /// Each part of the state is one that its parameter sets up.
    open spec fn sets_up(world: &World, state: Self::State) -> bool {
        S0::sets_up(world, state.0) && S1::sets_up(world, state.1)
    }

    /// Each part of the item is made from the same part of the state.
    open spec fn makes(state: Self::State, world: &World, item: Self::Item<'_, '_>) -> bool {
        S0::makes(state.0, world, item.0) && S1::makes(state.1, world, item.1)
    }

    fn init_state(world: &World) -> (state: Self::State) {
        (S0::init_state(world), S1::init_state(world))
    }

    fn from_state<'world, 'state>(
        state: &'state mut Self::State,
        world: &'world World,
    ) -> (item: Self::Item<'world, 'state>) {
        let (state0, state1) = state;
        (S0::from_state(state0, world), S1::from_state(state1, world))
    }
}

impl<S0: SystemParam, S1: SystemParam, S2: SystemParam> SystemParam for (S0, S1, S2) {
    type State = (S0::State, S1::State, S2::State);

    type Item<'world, 'state> = (
        S0::Item<'world, 'state>,
        S1::Item<'world, 'state>,
        S2::Item<'world, 'state>,
    );

    /// Each part of the state is one that its parameter sets up.
    open spec fn sets_up(world: &World, state: Self::State) -> bool {
        S0::sets_up(world, state.0) && S1::sets_up(world, state.1) && S2::sets_up(world, state.2)
    }

    /// Each part of the item is made from the same part of the state.
    open spec fn makes(state: Self::State, world: &World, item: Self::Item<'_, '_>) -> bool {
        S0::makes(state.0, world, item.0) && S1::makes(state.1, world, item.1) && S2::makes(
            state.2,
            world,
            item.2,
        )
    }

    fn init_state(world: &World) -> (state: Self::State) {
        (S0::init_state(world), S1::init_state(world), S2::init_state(world))
    }

    fn from_state<'world, 'state>(
        state: &'state mut Self::State,
        world: &'world World,
    ) -> (item: Self::Item<'world, 'state>) {
        let (state0, state1, state2) = state;
        (S0::from_state(state0, world), S1::from_state(state1, world), S2::from_state(state2, world))
    }
}

/// A function that can serve as a system. `Hint` tells the forms of such
/// functions apart: `(P, Out)` for a function of a parameter, `(In, P, Out)`
/// for a function of an input and a parameter.
pub trait SystemParamFunction<Hint>: Send + Sync + 'static {
    type Input;

    type Output;

    type Param: SystemParam;

    /// The arguments on which the function can be called: all, unless an
    /// implementation says otherwise.
    open spec fn accepts(
        &self,
        input: Self::Input,
        param: <Self::Param as SystemParam>::Item<'_, '_>,
    ) -> bool {
        true
    }

    /// What an implementation says of what the function returns on its
    /// arguments: nothing, unless it says more.
    open spec fn gives(
        &self,
        input: Self::Input,
        param: <Self::Param as SystemParam>::Item<'_, '_>,
        output: Self::Output,
    ) -> bool {
        true
    }

    fn run(
        &self,
        input: Self::Input,
        param: <Self::Param as SystemParam>::Item<'_, '_>,
    ) -> (output: Self::Output)
        requires
            self.accepts(input, param),
        ensures
            self.gives(input, param, output),
    ;
}

fn call_with_param<O, P>(f: impl Fn(P) -> O, p: P) -> (out: O)
    requires
        call_requires(f, (p,)),
    ensures
        call_ensures(f, (p,), out),
{
    f(p)
}

fn call_with_input<I, O, P>(f: impl Fn(I, P) -> O, i: I, p: P) -> (out: O)
    requires
        call_requires(f, (i, p)),
    ensures
        call_ensures(f, (i, p), out),
{
    f(i, p)
}

impl<Out, S0: SystemParam, F: Send + Sync + 'static> SystemParamFunction<(S0, Out)> for F where
    for <'a>&'a F: Fn(S0) -> Out + Fn(S0::Item<'_, '_>) -> Out,
 {
    type Input = ();

    type Output = Out;

    type Param = S0;

    open spec fn accepts(
        &self,
        input: Self::Input,
        param: <Self::Param as SystemParam>::Item<'_, '_>,
    ) -> bool {
        call_requires(self, (param,))
    }

    open spec fn gives(
        &self,
        input: Self::Input,
        param: <Self::Param as SystemParam>::Item<'_, '_>,
        output: Self::Output,
    ) -> bool {
        call_ensures(self, (param,), output)
    }

    fn run(
        &self,
        _input: Self::Input,
        param: <Self::Param as SystemParam>::Item<'_, '_>,
    ) -> (output: Self::Output) {
        call_with_param(self, param)
    }
}

impl<In, Out, S0: SystemParam, F> SystemParamFunction<(In, S0, Out)> for F where
    F: Send + Sync + 'static,
    for <'a>&'a F: Fn(In, S0) -> Out + Fn(In, S0::Item<'_, '_>) -> Out,
 {
    type Input = In;

    type Output = Out;

    type Param = S0;

    open spec fn accepts(
        &self,
        input: Self::Input,
        param: <Self::Param as SystemParam>::Item<'_, '_>,
    ) -> bool {
        call_requires(self, (input, param))
    }

    open spec fn gives(
        &self,
        input: Self::Input,
        param: <Self::Param as SystemParam>::Item<'_, '_>,
        output: Self::Output,
    ) -> bool {
        call_ensures(self, (input, param), output)
    }

    fn run(
        &self,
        input: Self::Input,
        param: <Self::Param as SystemParam>::Item<'_, '_>,
    ) -> (output: Self::Output) {
        call_with_input(self, input, param)
    }
}

/// A system function that has not been set up for a world yet.
pub struct FunctionSystemDef<F, Hint> where F: SystemParamFunction<Hint> {
    func: F,
    signature: PhantomData<Hint>,
}

impl<F, Hint: 'static> FunctionSystemDef<F, Hint> where F: SystemParamFunction<Hint> {
    /// The function that the definition holds.
    pub closed spec fn func(&self) -> F {
        self.func
    }

    pub fn new(func: F) -> (def: Self)
        ensures
            def.func() == func,
    {
        Self { func, signature: PhantomData }
    }

    /// Sets the function up for `world`: the state of its parameter is made
    /// once, here.
    pub fn into_system(self, world: &World) -> (system: FunctionSystem<F, Hint>)
        ensures
            system.def() == self,
            <F::Param as SystemParam>::sets_up(world, system.state()),
    {
        FunctionSystem { func: self, param_state: <F::Param as SystemParam>::init_state(world) }
    }
}

/// A system function with the state of its parameter.
pub struct FunctionSystem<F, Hint> where F: SystemParamFunction<Hint> {
    func: FunctionSystemDef<F, Hint>,
    param_state: <F::Param as SystemParam>::State,
}

impl<F, Hint> FunctionSystem<F, Hint> where F: SystemParamFunction<Hint> {
    /// The definition that the system was made from.
    pub closed spec fn def(&self) -> FunctionSystemDef<F, Hint> {
        self.func
    }

    /// The state from which the system makes the parameter of its function.
    pub closed spec fn state(&self) -> <F::Param as SystemParam>::State {
        self.param_state
    }
}

impl<F, Hint: Send + Sync + 'static> System for FunctionSystem<F, Hint> where
    F: SystemParamFunction<Hint>,
 {
    type Input = <F as SystemParamFunction<Hint>>::Input;

    type Output = <F as SystemParamFunction<Hint>>::Output;

    /// The system can run where its function takes the input with whatever
    /// parameter is made from the state.
    open spec fn accepts(&self, input: Self::Input, world: &World) -> bool {
        forall|param: <F::Param as SystemParam>::Item<'_, '_>|
            <F::Param as SystemParam>::makes(self.state(), world, param)
                ==> #[trigger] self.def().func().accepts(input, param)
    }

    /// The system returns what its function returns on the input and a
    /// parameter made from the state.
    open spec fn yields(&self, input: Self::Input, world: &World, output: Self::Output) -> bool {
        exists|param: <F::Param as SystemParam>::Item<'_, '_>|
            <F::Param as SystemParam>::makes(self.state(), world, param)
                && #[trigger] self.def().func().gives(input, param, output)
    }

    fn run(&mut self, input: Self::Input, world: &World) -> (output: Self::Output)
        ensures
            final(self).def() == old(self).def(),
    {
        let ghost func = self.func.func;
        let ghost state = self.param_state;
        assert(func == self.def().func());
        assert(state == self.state());
        let param = <F::Param as SystemParam>::from_state(&mut self.param_state, world);
        assert(func.accepts(input, param));
        let output = self.func.func.run(input, param);
        assert(<F::Param as SystemParam>::makes(state, world, param) && func.gives(
            input,
            param,
            output,
        ));
        output
    }
}

} // verus!
