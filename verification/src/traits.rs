use crate::error::Error;
use core::marker::PhantomData;
use vstd::prelude::*;

verus! {

/// A named unit of transformation from a typed input to a typed output,
/// fallible. What a concrete processor demands and returns is stated by its
/// own `process_requires` and `process_ensures`.
pub trait Processor<Input, Output> {
    /// What the processor demands of its input. By default: nothing.
    open spec fn process_requires(&self, input: Input) -> bool {
        true
    }

    /// What holds of the processor's result for the given input. Unless an
    /// implementation says more, nothing is promised.
    open spec fn process_ensures(&self, input: Input, output: Result<Output, Error>) -> bool {
        true
    }

    fn process(&self, input: Input) -> (output: Result<Output, Error>)
        requires
            self.process_requires(input),
        ensures
            self.process_ensures(input, output),
    ;

    /// Hands a failure on unchanged.
    fn on_err(&self, err: Error) -> (output: Result<Output, Error>)
        ensures
            output == Err::<Output, Error>(err),
    {
        Err(err)
    }

    fn run(&self, input: Input) -> (output: Result<Output, Error>)
        requires
            self.process_requires(input),
        ensures
            self.process_ensures(input, output),
    {
        let out = self.process(input);
        match out {
            Ok(o) => Ok(o),
            Err(e) => self.on_err(e),
        }
    }
}

/// An explicit, checked conversion between adjacent pipeline stage types.
pub trait Adapt<T>: Sized {
    /// The converted value.
    spec fn adapt_spec(self) -> T;

    fn adapt(self) -> (r: T)
        ensures
            r == self.adapt_spec(),
    ;
}

impl<T> Adapt<T> for T {
    open spec fn adapt_spec(self) -> T {
        self
    }

    fn adapt(self) -> (r: T) {
        self
    }
}

/// The processor that returns its input unchanged and always succeeds.
pub struct IdentityProcessor;

impl<Input> Processor<Input, Input> for IdentityProcessor {
    open spec fn process_requires(&self, input: Input) -> bool {
        true
    }

    open spec fn process_ensures(&self, input: Input, output: Result<Input, Error>) -> bool {
        output == Ok::<Input, Error>(input)
    }

    fn process(&self, input: Input) -> (output: Result<Input, Error>) {
        Ok(input)
    }
}

/// Lifts a plain fallible function into a processor: the call's own
/// contract is the processor's contract.
impl<Input, Output, T> Processor<Input, Output> for T where T: Fn(Input) -> Result<Output, Error> {
    open spec fn process_requires(&self, input: Input) -> bool {
        call_requires(*self, (input,))
    }

    open spec fn process_ensures(&self, input: Input, output: Result<Output, Error>) -> bool {
        call_ensures(*self, (input,), output)
    }

    fn process(&self, input: Input) -> (output: Result<Output, Error>) {
        (self)(input)
    }
}

/// An ordered composition of processors: the current processor runs on the
/// (converted) output of all the previous ones. A pipeline is itself a
/// processor, so pipelines nest.
pub struct Pipeline<Input, Output, IntermediateOut, IntermediateIn, Curr, Prev> where
    Curr: Processor<IntermediateIn, Output>,
    Prev: Processor<Input, IntermediateOut>,
 {
    pub processor: Curr,
    pub prev: Prev,
    pub phantom: PhantomData<(Input, Output, IntermediateOut, IntermediateIn)>,
}

impl<Input, Output, Curr> Pipeline<Input, Output, Input, Input, Curr, IdentityProcessor> where
    Curr: Processor<Input, Output>,
 {
    /// Creates a new pipeline. The "prev" processor is an
    /// [`IdentityProcessor`], which does nothing.
    pub fn new(processor: Curr) -> (r: Self)
        ensures
            r.processor == processor,
    {
        Pipeline { processor, prev: IdentityProcessor, phantom: PhantomData }
    }
}

impl<Input, Output, IntermediateOut, IntermediateIn, Curr, Prev> Pipeline<
    Input,
    Output,
    IntermediateOut,
    IntermediateIn,
    Curr,
    Prev,
> where
    Curr: Processor<IntermediateIn, Output>,
    Prev: Processor<Input, IntermediateOut>,
    IntermediateOut: Adapt<IntermediateIn>,
 {
    /// Chains one more processor onto the pipeline; the current output type
    /// must convert into the next input type.
    pub fn chain<NextIn, NextOut, Next>(self, processor: Next) -> (r: Pipeline<
        Input,
        NextOut,
        Output,
        NextIn,
        Next,
        Self,
    >) where Next: Processor<NextIn, NextOut>, Output: Adapt<NextIn>
        ensures
            r.processor == processor,
            r.prev == self,
    {
        Pipeline { processor, prev: self, phantom: PhantomData }
    }

    /// Runs the pipeline on anything that converts into its input type.
    pub fn run<J>(&self, input: J) -> (output: Result<Output, Error>) where J: Adapt<Input>
        requires
            self.process_requires(input.adapt_spec()),
        ensures
            self.process_ensures(input.adapt_spec(), output),
    {
        self.process(input.adapt())
    }
}

impl<Input, Output, IntermediateOut, IntermediateIn, Curr, Prev> Processor<Input, Output> for Pipeline<
    Input,
    Output,
    IntermediateOut,
    IntermediateIn,
    Curr,
    Prev,
> where
    Curr: Processor<IntermediateIn, Output>,
    Prev: Processor<Input, IntermediateOut>,
    IntermediateOut: Adapt<IntermediateIn>,
 {
    open spec fn process_requires(&self, input: Input) -> bool {
        &&& self.prev.process_requires(input)
        &&& forall|mid: IntermediateOut|
            #[trigger] self.prev.process_ensures(input, Ok(mid))
                ==> self.processor.process_requires(mid.adapt_spec())
    }

    open spec fn process_ensures(&self, input: Input, output: Result<Output, Error>) -> bool {
        exists|mid: Result<IntermediateOut, Error>|
            {
                &&& #[trigger] self.prev.process_ensures(input, mid)
                &&& match mid {
                    Result::Err(e) => output == Err::<Output, Error>(e),
                    Result::Ok(m) => self.processor.process_ensures(m.adapt_spec(), output),
                }
            }
    }

    /// Runs the stages in chain order, short-circuiting on the first
    /// failure: a failing stage's error is returned unchanged and no later
    /// stage runs.
    fn process(&self, input: Input) -> (output: Result<Output, Error>) {
        let ghost gin = input;
        let mid = self.prev.process(input);
        let ghost gmid = mid;
        match mid {
            Err(e) => {
                let output = Err(e);
                proof {
                    assert(self.prev.process_ensures(gin, gmid) && match gmid {
                        Result::Err(e2) => output == Err::<Output, Error>(e2),
                        Result::Ok(m) => self.processor.process_ensures(m.adapt_spec(), output),
                    });
                }
                output
            },
            Ok(m) => {
                let ghost gm = m;
                let converted = m.adapt();
                let output = self.processor.process(converted);
                proof {
                    assert(self.prev.process_ensures(gin, gmid) && match gmid {
                        Result::Err(e2) => output == Err::<Output, Error>(e2),
                        Result::Ok(m2) => self.processor.process_ensures(m2.adapt_spec(), output),
                    });
                }
                output
            },
        }
    }
}

/// A pipeline with no chained stages behaves exactly as its single
/// processor: it demands the same of the input and returns the same
/// results.
pub proof fn lemma_single_stage_pipeline<Input, Output, Curr>(
    p: Pipeline<Input, Output, Input, Input, Curr, IdentityProcessor>,
    input: Input,
    output: Result<Output, Error>,
) where Curr: Processor<Input, Output>
    ensures
        p.process_requires(input) <==> p.processor.process_requires(input),
        p.process_ensures(input, output) <==> p.processor.process_ensures(input, output),
{
    assert(p.prev.process_ensures(input, Ok(input)));
    if p.processor.process_ensures(input, output) {
        let mid: Result<Input, Error> = Ok(input);
        assert(p.prev.process_ensures(input, mid) && match mid {
            Result::Err(e) => output == Err::<Output, Error>(e),
            Result::Ok(m) => p.processor.process_ensures(m.adapt_spec(), output),
        });
    }
}

/// Pipeline short-circuit: in a three-stage pipeline whose first stage
/// always succeeds and whose second stage always fails with `e`, `process`
/// returns exactly that failure. The conclusion holds for every third
/// stage, so the third stage's transformation is never applied.
pub proof fn lemma_pipeline_short_circuit<I, O1, I2, O2, I3, O3, A, B, C>(
    p: Pipeline<
        I,
        O3,
        O2,
        I3,
        C,
        Pipeline<I, O2, O1, I2, B, Pipeline<I, O1, I, I, A, IdentityProcessor>>,
    >,
    input: I,
    output: Result<O3, Error>,
    e: Error,
) where
    A: Processor<I, O1>,
    B: Processor<I2, O2>,
    C: Processor<I3, O3>,
    O1: Adapt<I2>,
    O2: Adapt<I3>,

    requires
        forall|out: Result<O1, Error>|
            #[trigger] p.prev.prev.processor.process_ensures(input, out) ==> out is Ok,
        forall|m: I2, out: Result<O2, Error>|
            #[trigger] p.prev.processor.process_ensures(m, out) ==> out == Err::<O2, Error>(e),
        p.process_ensures(input, output),
    ensures
        output == Err::<O3, Error>(e),
{
    let mid2 = choose|mid2: Result<O2, Error>|
        {
            &&& #[trigger] p.prev.process_ensures(input, mid2)
            &&& match mid2 {
                Result::Err(e2) => output == Err::<O3, Error>(e2),
                Result::Ok(m2) => p.processor.process_ensures(m2.adapt_spec(), output),
            }
        };
    let mid1 = choose|mid1: Result<O1, Error>|
        {
            &&& #[trigger] p.prev.prev.process_ensures(input, mid1)
            &&& match mid1 {
                Result::Err(e1) => mid2 == Err::<O2, Error>(e1),
                Result::Ok(m1) => p.prev.processor.process_ensures(m1.adapt_spec(), mid2),
            }
        };
    let mid0 = choose|mid0: Result<I, Error>|
        {
            &&& #[trigger] p.prev.prev.prev.process_ensures(input, mid0)
            &&& match mid0 {
                Result::Err(e0) => mid1 == Err::<O1, Error>(e0),
                Result::Ok(m0) => p.prev.prev.processor.process_ensures(m0.adapt_spec(), mid1),
            }
        };
    assert(mid0 == Ok::<I, Error>(input));
    assert(p.prev.prev.processor.process_ensures(input, mid1));
    assert(mid1 is Ok);
    assert(mid2 == Err::<O2, Error>(e));
}

} // verus!
