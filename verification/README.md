# rpx

`rpx` manages the dependencies of an R project: it reads what the project's `DESCRIPTION`
asks for, resolves it against package repositories, records the outcome in `rpx.lock`, and
keeps an isolated library of exactly the locked packages.

The library under `src/` holds the rules and is verified with Verus: its functions carry
contracts that Verus proves, but for the small wrappers named below, and the laws that relate
several functions are public proof functions next to them. The program under `app/` is
ordinary Rust around it: arguments, files, processes, requests and prompts.

## The library

| Modules | What they hold |
| --- | --- |
| `order`, `sorted`, `sorting`, `text`, `bytes`, `digest`, `path`, `location` | orders, sorted collections, texts, digests, places |
| `metadata`, `remote`, `uri`, `range` | versions, relations, remotes, URLs, ranges of versions |
| `document`, `description` | the `DESCRIPTION` of a project and changes to it |
| `lockfile`, `wire` | `rpx.lock` and its form as texts |
| `repository`, `catalog`, `listing`, `http`, `git` | where packages come from, and what is offered there |
| `resolver`, `resolution`, `pin`, `report` | the choice of versions, and why none fit together |
| `project`, `cache`, `r`, `status` | the project on disk, its library and R |
| `sync`, `schedule`, `artifact` | the tasks that bring a library up to date |
| `cli`, `init`, `add`, `repo`, `audit` | the commands |

## What is taken on trust

Calls into other crates stand behind small wrappers marked `#[verifier::external_body]`. The
comment above each names the function that it calls and says what the contract claims of it;
Verus takes these contracts as they stand and does not look at the bodies.
What such a function returns is given a name where it takes pages to state; contracts further
up speak of that name.

Documents are limited to four gibibytes, the size that their parser takes.
