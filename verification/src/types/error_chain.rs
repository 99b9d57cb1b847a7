//! Failures with a context: what was being done, and beneath it what went
//! wrong, down through every cause.
use vstd::prelude::*;

verus! {

/// A failure: a description of what was being done, and the failure that caused
/// it, if one is known.
///
/// Its view is the list of the descriptions, from this failure down to the
/// innermost cause. The list is never empty.
pub struct ErrorChain {
    context: String,
    cause: Option<Box<ErrorChain>>,
}

/// What stands between a description and the rendering of its cause: a line
/// of three backslashes.
pub open spec fn separator() -> Seq<char> {
    seq!['\n', '\\', ' ', '\\', ' ', '\\', '\n']
}

/// The descriptions one beneath the other, outermost first, with the separator
/// between each two.
pub open spec fn rendering(contexts: Seq<Seq<char>>) -> Seq<char>
    decreases contexts.len(),
{
    if contexts.len() == 0 {
        Seq::empty()
    } else if contexts.len() == 1 {
        contexts[0]
    } else {
        contexts[0] + separator() + rendering(contexts.drop_first())
    }
}

impl View for ErrorChain {
    type V = Seq<Seq<char>>;

    closed spec fn view(&self) -> Seq<Seq<char>> {
        self.contexts()
    }
}

impl ErrorChain {
    /// The descriptions, from this failure down to the innermost cause.
    pub closed spec fn contexts(&self) -> Seq<Seq<char>>
        decreases self,
    {
        match self.cause {
            None => seq![self.context@],
            Some(cause) => seq![self.context@] + cause.contexts(),
        }
    }

    /// A failure without a known cause.
    pub fn new(context: String) -> (chain: ErrorChain)
        ensures
            chain@ == seq![context@],
    {
        ErrorChain { context, cause: None }
    }

    /// The failure described by `context` and caused by `error`.
    pub fn from(error: ErrorChain, context: String) -> (chain: ErrorChain)
        ensures
            chain@ == seq![context@] + error@,
    {
        ErrorChain { context, cause: Some(Box::new(error)) }
    }

    /// A failure has at least its own description.
    pub proof fn lemma_never_empty(&self)
        ensures
            self@.len() > 0,
        decreases self,
    {
        match self.cause {
            None => {},
            Some(cause) => {},
        }
    }

    /// The text of the failure: its description, and beneath it, after a
    /// separator, the text of its cause.
    pub fn render(&self) -> (text: String)
        ensures
            text@ == rendering(self@),
        decreases self,
    {
        let mut text = self.context.clone();
        if let Some(cause) = &self.cause {
            proof {
                reveal_strlit("\n\\ \\ \\\n");
                assert("\n\\ \\ \\\n"@ =~= separator());
                cause.lemma_never_empty();
                assert(self@.drop_first() =~= cause@);
            }
            text.append("\n\\ \\ \\\n");
            let beneath = cause.render();
            text.append(beneath.as_str());
        }
        text
    }
}

/// The descriptions of a cause, or none where there is no cause.
pub open spec fn contexts_of(cause: Option<ErrorChain>) -> Seq<Seq<char>> {
    match cause {
        Some(chain) => chain@,
        None => Seq::empty(),
    }
}

/// Results that can be given a context when they are a failure.
///
/// `T` is the type of the value on success, `E` the type of what a failure holds.
pub trait ErrorPropogation<T, E>: Sized {
    /// The value, where the result is a success.
    spec fn value(self) -> Option<T>;

    /// The cause, where the result is a failure that has one.
    spec fn cause(self) -> Option<ErrorChain>;

    /// A success is handed on as it is; a failure becomes the failure described
    /// by `context`, with the cause that it had.
    fn on_error(self, context: String) -> (result: Result<T, ErrorChain>)
        ensures
            match self.value() {
                Some(value) => result == Ok::<T, ErrorChain>(value),
                None => result matches Err(chain) && chain@ == seq![context@] + contexts_of(
                    self.cause(),
                ),
            },
    ;

    /// As [`ErrorPropogation::on_error`], with a context that is computed only
    /// when the result is a failure: on a success `context_func` is not called,
    /// and need not be callable.
    fn do_on_error<F: FnOnce() -> String>(self, context_func: F) -> (result: Result<
        T,
        ErrorChain,
    >)
        requires
            self.value() is None ==> context_func.requires(()),
        ensures
            match self.value() {
                Some(value) => result == Ok::<T, ErrorChain>(value),
                None => result matches Err(chain) && exists|context: String|
                    {
                        &&& #[trigger] context_func.ensures((), context)
                        &&& chain@ == seq![context@] + contexts_of(self.cause())
                    },
            },
    ;
}

impl<T> ErrorPropogation<T, ErrorChain> for Result<T, ErrorChain> {
    open spec fn value(self) -> Option<T> {
        match self {
            Ok(value) => Some(value),
            Err(_) => None,
        }
    }

    open spec fn cause(self) -> Option<ErrorChain> {
        match self {
            Ok(_) => None,
            Err(error) => Some(error),
        }
    }

    fn on_error(self, context: String) -> (result: Result<T, ErrorChain>) {
        match self {
            Ok(val) => Ok(val),
            Err(error) => Err(ErrorChain::from(error, context)),
        }
    }

    fn do_on_error<F: FnOnce() -> String>(self, context_func: F) -> (result: Result<
        T,
        ErrorChain,
    >) {
        match self {
            Ok(val) => Ok(val),
            Err(error) => Err(ErrorChain::from(error, context_func())),
        }
    }
}

impl<T> ErrorPropogation<T, core::convert::Infallible> for Option<T> {
    open spec fn value(self) -> Option<T> {
        self
    }

    open spec fn cause(self) -> Option<ErrorChain> {
        None
    }

    fn on_error(self, context: String) -> (result: Result<T, ErrorChain>) {
        match self {
            Some(val) => Ok(val),
            None => Err(ErrorChain::new(context)),
        }
    }

    fn do_on_error<F: FnOnce() -> String>(self, context_func: F) -> (result: Result<
        T,
        ErrorChain,
    >) {
        match self {
            Some(val) => Ok(val),
            None => Err(ErrorChain::new(context_func())),
        }
    }
}

} // verus!
